//! Member types of LLZK IR read from their printed form: `!struct.type<@A::@B, ...>`,
//! `!pod.type<[@r: T, ...]>` and `!array.type<2,3 x T>`. Struct types are followed into the
//! definitions of the module, as far as a given depth.
use vstd::prelude::*;
use crate::ir::llzk::{MemberDef, MemberType};
use crate::text::{chars_of, text_of};

verus! {

/// A member of a struct definition as printed: its name, whether it is public, and the printed
/// form of its type.
pub struct PrintedMember {
    pub name: String,
    pub public: bool,
    pub ty: String,
}

/// A struct definition of the module, by its name, with its members.
pub struct PrintedStruct {
    pub name: String,
    pub members: Vec<PrintedMember>,
}

/// How a character changes the nesting in `<>`, `[]` and `()`.
pub open spec fn bracket_delta(c: char) -> int {
    if c == '<' || c == '[' || c == '(' {
        1
    } else if c == '>' || c == ']' || c == ')' {
        -1
    } else {
        0
    }
}

/// `sep` occurs in `t` at position `i`.
pub open spec fn occurs_at(t: Seq<char>, i: int, sep: Seq<char>) -> bool {
    0 <= i && i + sep.len() <= t.len() && t.subrange(i, i + sep.len()) == sep
}

/// The parts of `t` read from position `i` on, at nesting depth `d` before `t[i]`, the current
/// part starting at `start`: an occurrence of `sep` where the depth, `t[i]` counted, is zero
/// ends the part, and the next one starts after it.
pub open spec fn split_from(t: Seq<char>, sep: Seq<char>, start: int, i: int, d: int) -> Seq<Seq<char>>
    decreases t.len() - i,
{
    if i < 0 || i >= t.len() || sep.len() == 0 {
        seq![t.subrange(start, t.len() as int)]
    } else {
        let d2 = d + bracket_delta(t[i]);
        if d2 == 0 && occurs_at(t, i, sep) {
            seq![t.subrange(start, i)] + split_from(t, sep, i + sep.len(), i + sep.len(), d2)
        } else {
            split_from(t, sep, start, i + 1, d2)
        }
    }
}

/// `t` split at the occurrences of `sep` outside `<>`, `[]` and `()`, read from the left.
pub open spec fn top_split(t: Seq<char>, sep: Seq<char>) -> Seq<Seq<char>> {
    split_from(t, sep, 0, 0, 0)
}

/// A part of a split is no longer than the text.
pub proof fn lemma_split_parts_shorter(t: Seq<char>, sep: Seq<char>, start: int, i: int, d: int)
    requires
        0 <= start <= i <= t.len(),
    ensures
        split_from(t, sep, start, i, d).len() > 0,
        forall|k: int|
            0 <= k < split_from(t, sep, start, i, d).len() ==> (#[trigger] split_from(t, sep, start, i, d)[k]).len()
                <= t.len() - start,
    decreases t.len() - i,
{
    if i < 0 || i >= t.len() || sep.len() == 0 {
    } else {
        let d2 = d + bracket_delta(t[i]);
        if d2 == 0 && occurs_at(t, i, sep) {
            lemma_split_parts_shorter(t, sep, i + sep.len(), i + sep.len(), d2);
            let rest = split_from(t, sep, i + sep.len(), i + sep.len(), d2);
            let all = split_from(t, sep, start, i, d);
            assert forall|k: int| 0 <= k < all.len() implies (#[trigger] all[k]).len() <= t.len() - start by {
                if k > 0 {
                    assert(all[k] == rest[k - 1]);
                }
            }
        } else {
            lemma_split_parts_shorter(t, sep, start, i + 1, d2);
        }
    }
}

/// Whitespace around a printed type.
pub open spec fn is_space(c: char) -> bool {
    c == ' ' || c == '\t' || c == '\n' || c == '\r'
}

/// The first position from `i` on that is not whitespace.
pub open spec fn skip_spaces(t: Seq<char>, i: int) -> int
    decreases t.len() - i,
{
    if 0 <= i < t.len() && is_space(t[i]) {
        skip_spaces(t, i + 1)
    } else {
        i
    }
}

/// The end of `t` before `j` once trailing whitespace after `lo` is left out.
pub open spec fn trim_end_at(t: Seq<char>, lo: int, j: int) -> int
    decreases j - lo,
{
    if lo < j && j <= t.len() && is_space(t[j - 1]) {
        trim_end_at(t, lo, j - 1)
    } else {
        j
    }
}

/// `t` without its leading and trailing whitespace.
pub open spec fn trim(t: Seq<char>) -> Seq<char> {
    let lo = skip_spaces(t, 0);
    t.subrange(lo, trim_end_at(t, lo, t.len() as int))
}

/// The first position from `i` on that is not an `@`.
pub open spec fn skip_ats(t: Seq<char>, i: int) -> int
    decreases t.len() - i,
{
    if 0 <= i < t.len() && t[i] == '@' {
        skip_ats(t, i + 1)
    } else {
        i
    }
}

/// `t` without its leading `@`s.
pub open spec fn strip_ats(t: Seq<char>) -> Seq<char> {
    t.subrange(skip_ats(t, 0), t.len() as int)
}

/// Where the text after the last `::` before `j` starts (0 when there is none).
pub open spec fn segment_start(t: Seq<char>, j: int) -> int
    decreases j,
{
    if j < 2 || j > t.len() {
        0
    } else if t[j - 2] == ':' && t[j - 1] == ':' {
        j
    } else {
        segment_start(t, j - 1)
    }
}

/// The text after the last `::` of a symbol path, or the whole text.
pub open spec fn last_segment(t: Seq<char>) -> Seq<char> {
    t.subrange(segment_start(t, t.len() as int), t.len() as int)
}

/// The position of the first `:` from `i` on, if any.
pub open spec fn colon_from(t: Seq<char>, i: int) -> Option<int>
    decreases t.len() - i,
{
    if i < 0 || i >= t.len() {
        None
    } else if t[i] == ':' {
        Some(i)
    } else {
        colon_from(t, i + 1)
    }
}

/// `t` starts with `p`.
pub open spec fn starts_with(t: Seq<char>, p: Seq<char>) -> bool {
    p.len() <= t.len() && t.subrange(0, p.len() as int) == p
}

/// `t` ends with `p`.
pub open spec fn ends_with(t: Seq<char>, p: Seq<char>) -> bool {
    p.len() <= t.len() && t.subrange(t.len() - p.len(), t.len() as int) == p
}

/// `t` starts with `open`, ends with `close`, and has room for both.
pub open spec fn enclosed(t: Seq<char>, open: Seq<char>, close: Seq<char>) -> bool {
    open.len() + close.len() <= t.len() && starts_with(t, open) && ends_with(t, close)
}

/// What `open ... close` encloses in `t`.
pub open spec fn inside(t: Seq<char>, open: Seq<char>, close: Seq<char>) -> Seq<char> {
    t.subrange(open.len() as int, t.len() - close.len())
}

/// The position of the first struct definition called `name`, if any.
pub open spec fn struct_position(structs: Seq<PrintedStruct>, name: Seq<char>) -> Option<int>
    decreases structs.len(),
{
    if structs.len() == 0 {
        None
    } else if structs.last().name@ == name && struct_position(structs.drop_last(), name) is None {
        Some(structs.len() - 1)
    } else {
        struct_position(structs.drop_last(), name)
    }
}

/// The first position of a `<` from `i` on, or the end of `t`.
pub open spec fn angle_from(t: Seq<char>, i: int) -> int
    decreases t.len() - i,
{
    if i < 0 || i >= t.len() {
        t.len() as int
    } else if t[i] == '<' {
        i
    } else {
        angle_from(t, i + 1)
    }
}

/// `t` before its first `<`: a symbol without the parameters printed after it.
pub open spec fn before_angle(t: Seq<char>) -> Seq<char> {
    t.subrange(0, angle_from(t, 0))
}

/// The name a printed struct type refers to: the last segment of its symbol (the first of its
/// comma-separated parts, without the parameters printed after it), without leading `@`s.
pub open spec fn struct_name(inner: Seq<char>) -> Seq<char> {
    strip_ats(last_segment(before_angle(top_split(inner, ","@)[0])))
}

/// `r` is the member type that the printed type `t` stands for, struct definitions being
/// followed `depth` levels deep: a struct type with the members of the first definition of its
/// name (none where the depth is spent or no definition has it), a plain-data type with its
/// records (the parts with a `:`, named by what precedes the first `:` without `@`s), an array
/// type with the number of its dimensions and its element type, any other type as such.
pub open spec fn reads_type(t: Seq<char>, structs: Seq<PrintedStruct>, depth: nat, r: MemberType) -> bool
    decreases r, 0int,
{
    let tt = trim(t);
    if enclosed(tt, "!struct.type<"@, ">"@) {
        let name = struct_name(inside(tt, "!struct.type<"@, ">"@));
        r matches MemberType::Struct(def) && if depth == 0 {
            def is None
        } else {
            match struct_position(structs, name) {
                Some(k) => def matches Some(v) && members_read(structs[k].members@, structs, (depth - 1) as nat, v@),
                None => def is None,
            }
        }
    } else if enclosed(tt, "!pod.type<["@, "]>"@) {
        let inner = inside(tt, "!pod.type<["@, "]>"@);
        r matches MemberType::Pod(rs) && if trim(inner).len() == 0 {
            rs@.len() == 0
        } else {
            records_read(top_split(inner, ","@), structs, depth, rs@)
        }
    } else if enclosed(tt, "!array.type<"@, ">"@) {
        let parts = top_split(inside(tt, "!array.type<"@, ">"@), " x "@);
        r matches MemberType::Array(n, e) && n == top_split(parts[0], ","@).len() && if parts.len() > 1 {
            reads_type(parts[1], structs, depth, *e)
        } else {
            *e is Other
        }
    } else {
        r is Other
    }
}

/// `v` are the members `ms` read: same names and publicity, each type read by [`reads_type`].
pub open spec fn members_read(ms: Seq<PrintedMember>, structs: Seq<PrintedStruct>, depth: nat, v: Seq<MemberDef>) -> bool
    decreases v, 0int,
{
    if v.len() != ms.len() {
        false
    } else if v.len() == 0 {
        true
    } else {
        &&& v.last().name@ == ms.last().name@
        &&& v.last().public == ms.last().public
        &&& reads_type(ms.last().ty@, structs, depth, v.last().ty)
        &&& members_read(ms.drop_last(), structs, depth, v.drop_last())
    }
}

/// `rs` are the records that the parts `parts` of a plain-data type give: one for each part with
/// a `:`, in order.
pub open spec fn records_read(
    parts: Seq<Seq<char>>,
    structs: Seq<PrintedStruct>,
    depth: nat,
    rs: Seq<(String, MemberType)>,
) -> bool
    decreases rs, parts.len() as int,
{
    if parts.len() == 0 {
        rs.len() == 0
    } else {
        let p = parts.last();
        match colon_from(p, 0) {
            Some(c) => rs.len() > 0 && rs.last().0@ == strip_ats(trim(p.subrange(0, c))) && reads_type(
                p.subrange(c + 1, p.len() as int),
                structs,
                depth,
                rs.last().1,
            ) && records_read(parts.drop_last(), structs, depth, rs.drop_last()),
            None => records_read(parts.drop_last(), structs, depth, rs),
        }
    }
}

/// The views of a list of character vectors.
pub open spec fn char_views(vs: Seq<Vec<char>>) -> Seq<Seq<char>> {
    vs.map_values(|v: Vec<char>| v@)
}

/// The characters of `t` from `a` to `b`.
fn slice_of(t: &Vec<char>, a: usize, b: usize) -> (r: Vec<char>)
    requires
        a <= b <= t@.len(),
    ensures
        r@ == t@.subrange(a as int, b as int),
{
    let mut r: Vec<char> = Vec::new();
    let mut k = a;
    while k < b
        invariant
            a <= k <= b <= t@.len(),
            r@ == t@.subrange(a as int, k as int),
        decreases b - k,
    {
        r.push(t[k]);
        k = k + 1;
        proof {
            assert(r@ =~= t@.subrange(a as int, k as int));
        }
    }
    r
}

/// Whether `sep` occurs in `t` at position `i`.
fn occurs(t: &Vec<char>, i: usize, sep: &Vec<char>) -> (r: bool)
    ensures
        r == occurs_at(t@, i as int, sep@),
{
    if sep.len() > t.len() || i > t.len() - sep.len() {
        return false;
    }
    let n = t.len();
    let mut k: usize = 0;
    while k < sep.len()
        invariant
            k <= sep@.len(),
            n == t@.len(),
            i + sep@.len() <= t@.len(),
            forall|q: int| 0 <= q < k ==> t@[i + q] == sep@[q],
        decreases sep@.len() - k,
    {
        let pos: usize = i + k;
        if t[pos] != sep[k] {
            proof {
                assert(t@.subrange(i as int, i + sep@.len())[k as int] != sep@[k as int]);
            }
            return false;
        }
        k = k + 1;
    }
    proof {
        assert(t@.subrange(i as int, i + sep@.len()) =~= sep@);
    }
    true
}

/// How `c` changes the nesting.
fn delta(c: char) -> (r: i128)
    ensures
        r == bracket_delta(c),
{
    if c == '<' || c == '[' || c == '(' {
        1
    } else if c == '>' || c == ']' || c == ')' {
        -1
    } else {
        0
    }
}

/// Splits `t` at the occurrences of `sep` outside `<>`, `[]` and `()`, read from the left.
pub fn split_top(t: &Vec<char>, sep: &Vec<char>) -> (r: Vec<Vec<char>>)
    requires
        sep@.len() > 0,
    ensures
        char_views(r@) == top_split(t@, sep@),
{
    let mut parts: Vec<Vec<char>> = Vec::new();
    let mut depth: i128 = 0;
    let mut start: usize = 0;
    let mut i: usize = 0;
    while i < t.len()
        invariant
            sep@.len() > 0,
            start <= i <= t@.len(),
            -(i as int) <= depth <= i as int,
            top_split(t@, sep@) == char_views(parts@) + split_from(t@, sep@, start as int, i as int, depth as int),
        decreases t@.len() - i,
    {
        let ghost d0 = depth as int;
        let ghost before = char_views(parts@);
        depth = depth + delta(t[i]);
        if depth == 0 && occurs(t, i, sep) {
            let part = slice_of(t, start, i);
            parts.push(part);
            proof {
                assert(char_views(parts@) =~= before.push(part@));
                let rest = split_from(t@, sep@, i + sep@.len(), i + sep@.len(), depth as int);
                assert(split_from(t@, sep@, start as int, i as int, d0) == seq![part@] + rest);
                assert(before + (seq![part@] + rest) =~= before.push(part@) + rest);
            }
            i = i + sep.len();
            start = i;
        } else {
            i = i + 1;
        }
    }
    let last = slice_of(t, start, t.len());
    let ghost before = char_views(parts@);
    parts.push(last);
    proof {
        assert(char_views(parts@) =~= before.push(last@));
        assert(before.push(last@) =~= before + seq![last@]);
    }
    parts
}

/// Whether `c` is whitespace around a printed type.
fn space(c: char) -> (r: bool)
    ensures
        r == is_space(c),
{
    c == ' ' || c == '\t' || c == '\n' || c == '\r'
}

/// Skipping whitespace stays within the text and past its start.
proof fn lemma_skip_spaces(t: Seq<char>, i: int)
    requires
        0 <= i <= t.len(),
    ensures
        i <= skip_spaces(t, i) <= t.len(),
    decreases t.len() - i,
{
    if i < t.len() && is_space(t[i]) {
        lemma_skip_spaces(t, i + 1);
    }
}

/// Leaving out trailing whitespace stays between `lo` and `j`.
proof fn lemma_trim_end_at(t: Seq<char>, lo: int, j: int)
    requires
        0 <= lo <= j <= t.len(),
    ensures
        lo <= trim_end_at(t, lo, j) <= j,
    decreases j - lo,
{
    if lo < j && is_space(t[j - 1]) {
        lemma_trim_end_at(t, lo, j - 1);
    }
}

/// `t` without its leading and trailing whitespace.
fn trim_chars(t: &Vec<char>) -> (r: Vec<char>)
    ensures
        r@ == trim(t@),
        r@.len() <= t@.len(),
{
    let mut lo: usize = 0;
    while lo < t.len() && space(t[lo])
        invariant
            lo <= t@.len(),
            skip_spaces(t@, lo as int) == skip_spaces(t@, 0),
        decreases t@.len() - lo,
    {
        lo = lo + 1;
    }
    let mut hi: usize = t.len();
    while hi > lo && space(t[hi - 1])
        invariant
            lo <= hi <= t@.len(),
            lo == skip_spaces(t@, 0),
            trim_end_at(t@, lo as int, hi as int) == trim_end_at(t@, lo as int, t@.len() as int),
        decreases hi - lo,
    {
        hi = hi - 1;
    }
    slice_of(t, lo, hi)
}

/// `t` without its leading `@`s.
fn strip_ats_chars(t: &Vec<char>) -> (r: Vec<char>)
    ensures
        r@ == strip_ats(t@),
        r@.len() <= t@.len(),
{
    let mut lo: usize = 0;
    while lo < t.len() && t[lo] == '@'
        invariant
            lo <= t@.len(),
            skip_ats(t@, lo as int) == skip_ats(t@, 0),
        decreases t@.len() - lo,
    {
        lo = lo + 1;
    }
    slice_of(t, lo, t.len())
}

/// The text after the last `::` of `t`, or `t` itself.
fn last_segment_chars(t: &Vec<char>) -> (r: Vec<char>)
    ensures
        r@ == last_segment(t@),
{
    let mut j: usize = t.len();
    while j >= 2 && !(t[j - 2] == ':' && t[j - 1] == ':')
        invariant
            j <= t@.len(),
            segment_start(t@, j as int) == segment_start(t@, t@.len() as int),
        decreases j,
    {
        j = j - 1;
    }
    let start = if j < 2 {
        0
    } else {
        j
    };
    slice_of(t, start, t.len())
}

/// `t` before its first `<`.
fn before_angle_chars(t: &Vec<char>) -> (r: Vec<char>)
    ensures
        r@ == before_angle(t@),
{
    let mut i: usize = 0;
    while i < t.len() && t[i] != '<'
        invariant
            i <= t@.len(),
            angle_from(t@, i as int) == angle_from(t@, 0),
        decreases t@.len() - i,
    {
        i = i + 1;
    }
    slice_of(t, 0, i)
}

/// The position of the first `:` of `t`, if any.
fn colon_position(t: &Vec<char>) -> (r: Option<usize>)
    ensures
        match r {
            Some(c) => colon_from(t@, 0) == Some(c as int) && c < t@.len(),
            None => colon_from(t@, 0) is None,
        },
{
    let mut i: usize = 0;
    while i < t.len()
        invariant
            i <= t@.len(),
            colon_from(t@, i as int) == colon_from(t@, 0),
        decreases t@.len() - i,
    {
        if t[i] == ':' {
            return Some(i);
        }
        i = i + 1;
    }
    None
}

/// Whether `t` starts with `open`, ends with `close` and has room for both.
fn is_enclosed(t: &Vec<char>, open: &Vec<char>, close: &Vec<char>) -> (r: bool)
    ensures
        r == enclosed(t@, open@, close@),
{
    if open.len() > t.len() || close.len() > t.len() - open.len() {
        return false;
    }
    let a = occurs(t, 0, open);
    let b = occurs(t, t.len() - close.len(), close);
    proof {
        assert(a == starts_with(t@, open@));
        assert(b == ends_with(t@, close@));
    }
    a && b
}

/// Whether `a` and `b` hold the same text.
fn same_text(a: &Vec<char>, b: &String) -> (r: bool)
    ensures
        r == (a@ == b@),
{
    let bs = chars_of(b.as_str());
    proof {
        assert(bs@ == b@);
    }
    if a.len() != bs.len() {
        return false;
    }
    let mut k: usize = 0;
    while k < a.len()
        invariant
            k <= a@.len(),
            a@.len() == bs@.len(),
            bs@ == b@,
            forall|q: int| 0 <= q < k ==> a@[q] == bs@[q],
        decreases a@.len() - k,
    {
        if a[k] != bs[k] {
            proof {
                assert(a@[k as int] != b@[k as int]);
            }
            return false;
        }
        k = k + 1;
    }
    proof {
        assert(a@ =~= bs@);
    }
    true
}

/// The position of the first struct definition called `name`, if any.
fn find_struct(structs: &Vec<PrintedStruct>, name: &Vec<char>) -> (r: Option<usize>)
    ensures
        match r {
            Some(k) => struct_position(structs@, name@) == Some(k as int) && k < structs@.len(),
            None => struct_position(structs@, name@) is None,
        },
{
    let mut k: usize = 0;
    while k < structs.len()
        invariant
            k <= structs@.len(),
            forall|j: int| 0 <= j < k ==> (#[trigger] structs@[j]).name@ != name@,
        decreases structs@.len() - k,
    {
        if same_text(name, &structs[k].name) {
            proof {
                lemma_struct_position_first(structs@, name@, k as int);
            }
            return Some(k);
        }
        k = k + 1;
    }
    proof {
        lemma_struct_position_none(structs@, name@);
    }
    None
}

/// The first definition of a name is found at its position.
proof fn lemma_struct_position_first(structs: Seq<PrintedStruct>, name: Seq<char>, k: int)
    requires
        0 <= k < structs.len(),
        structs[k].name@ == name,
        forall|j: int| 0 <= j < k ==> (#[trigger] structs[j]).name@ != name,
    ensures
        struct_position(structs, name) == Some(k),
    decreases structs.len(),
{
    if k < structs.len() - 1 {
        let d = structs.drop_last();
        assert forall|j: int| 0 <= j < k implies (#[trigger] d[j]).name@ != name by {
            assert(d[j] == structs[j]);
        }
        assert(d[k] == structs[k]);
        lemma_struct_position_first(d, name, k);
    } else {
        let d = structs.drop_last();
        assert forall|j: int| 0 <= j < d.len() implies (#[trigger] d[j]).name@ != name by {
            assert(d[j] == structs[j]);
        }
        lemma_struct_position_none(d, name);
    }
}

/// A name that no definition has has no position.
proof fn lemma_struct_position_none(structs: Seq<PrintedStruct>, name: Seq<char>)
    requires
        forall|j: int| 0 <= j < structs.len() ==> (#[trigger] structs[j]).name@ != name,
    ensures
        struct_position(structs, name) is None,
    decreases structs.len(),
{
    if structs.len() > 0 {
        let d = structs.drop_last();
        assert forall|j: int| 0 <= j < d.len() implies (#[trigger] d[j]).name@ != name by {
            assert(d[j] == structs[j]);
        }
        lemma_struct_position_none(d, name);
    }
}

/// The member type that the printed type `t` stands for ([`reads_type`]), struct definitions of
/// `structs` being followed `depth` levels deep.
pub fn member_type_of(t: &Vec<char>, structs: &Vec<PrintedStruct>, depth: usize) -> (r: MemberType)
    ensures
        reads_type(t@, structs@, depth as nat, r),
    decreases depth, t@.len(),
{
    let tt = trim_chars(t);
    let comma = chars_of(",");
    let struct_open = chars_of("!struct.type<");
    let angle_close = chars_of(">");
    let pod_open = chars_of("!pod.type<[");
    let pod_close = chars_of("]>");
    let array_open = chars_of("!array.type<");
    let times = chars_of(" x ");
    proof {
        reveal_strlit(",");
        reveal_strlit(" x ");
        reveal_strlit("!struct.type<");
        reveal_strlit(">");
        reveal_strlit("!pod.type<[");
        reveal_strlit("]>");
        reveal_strlit("!array.type<");
    }
    if is_enclosed(&tt, &struct_open, &angle_close) {
        let inner = slice_of(&tt, struct_open.len(), tt.len() - angle_close.len());
        let parts = split_top(&inner, &comma);
        proof {
            lemma_split_parts_shorter(inner@, ","@, 0, 0, 0);
            assert(char_views(parts@).len() == parts@.len());
        }
        let symbol = before_angle_chars(&parts[0]);
        let seg = last_segment_chars(&symbol);
        let name = strip_ats_chars(&seg);
        proof {
            assert(parts@[0]@ == char_views(parts@)[0]);
        }
        if depth == 0 {
            return MemberType::Struct(None);
        }
        match find_struct(structs, &name) {
            Some(k) => {
                let ms = &structs[k].members;
                let mut v: Vec<MemberDef> = Vec::new();
                let mut j: usize = 0;
                proof {
                    assert(ms@.subrange(0, 0) =~= Seq::<PrintedMember>::empty());
                }
                while j < ms.len()
                    invariant
                        j <= ms@.len(),
                        depth > 0,
                        *ms == structs@[k as int].members,
                        members_read(ms@.subrange(0, j as int), structs@, (depth - 1) as nat, v@),
                    decreases ms@.len() - j,
                {
                    let text = chars_of(ms[j].ty.as_str());
                    let ty = member_type_of(&text, structs, depth - 1);
                    let ghost before = v@;
                    v.push(MemberDef { name: ms[j].name.clone(), public: ms[j].public, ty });
                    proof {
                        let pre = ms@.subrange(0, j + 1);
                        assert(pre.drop_last() =~= ms@.subrange(0, j as int));
                        assert(pre.last() == ms@[j as int]);
                        assert(v@.drop_last() =~= before);
                    }
                    j = j + 1;
                }
                proof {
                    assert(ms@.subrange(0, j as int) =~= ms@);
                }
                MemberType::Struct(Some(v))
            },
            None => MemberType::Struct(None),
        }
    } else if is_enclosed(&tt, &pod_open, &pod_close) {
        let inner = slice_of(&tt, pod_open.len(), tt.len() - pod_close.len());
        if trim_chars(&inner).len() == 0 {
            return MemberType::Pod(Vec::new());
        }
        let parts = split_top(&inner, &comma);
        proof {
            lemma_split_parts_shorter(inner@, ","@, 0, 0, 0);
        }
        let ghost pv = char_views(parts@);
        let mut rs: Vec<(String, MemberType)> = Vec::new();
        let mut j: usize = 0;
        proof {
            assert(pv.subrange(0, 0) =~= Seq::<Seq<char>>::empty());
        }
        while j < parts.len()
            invariant
                j <= parts@.len(),
                pv == char_views(parts@),
                pv == top_split(inner@, ","@),
                inner@.len() < t@.len(),
                forall|q: int| 0 <= q < pv.len() ==> (#[trigger] pv[q]).len() <= inner@.len(),
                records_read(pv.subrange(0, j as int), structs@, depth as nat, rs@),
            decreases parts@.len() - j,
        {
            let p = &parts[j];
            proof {
                assert(p@ == pv[j as int]);
            }
            let ghost before = rs@;
            let ghost pre = pv.subrange(0, j + 1);
            proof {
                assert(pre.drop_last() =~= pv.subrange(0, j as int));
                assert(pre.last() == p@);
            }
            match colon_position(p) {
                Some(c) => {
                    let head = slice_of(p, 0, c);
                    let name = strip_ats_chars(&trim_chars(&head));
                    let rest = slice_of(p, c + 1, p.len());
                    let ty = member_type_of(&rest, structs, depth);
                    rs.push((text_of(&name, 0, name.len()), ty));
                    proof {
                        assert(name@.subrange(0, name@.len() as int) =~= name@);
                        assert(rs@.drop_last() =~= before);
                    }
                },
                None => {},
            }
            j = j + 1;
        }
        proof {
            assert(pv.subrange(0, j as int) =~= pv);
        }
        MemberType::Pod(rs)
    } else if is_enclosed(&tt, &array_open, &angle_close) {
        let inner = slice_of(&tt, array_open.len(), tt.len() - angle_close.len());
        let parts = split_top(&inner, &times);
        proof {
            lemma_split_parts_shorter(inner@, " x "@, 0, 0, 0);
            assert(parts@[0]@ == char_views(parts@)[0]);
        }
        let dims = split_top(&parts[0], &comma);
        proof {
            assert(char_views(dims@).len() == dims@.len());
        }
        let elem = if parts.len() > 1 {
            proof {
                assert(parts@[1]@ == char_views(parts@)[1]);
            }
            member_type_of(&parts[1], structs, depth)
        } else {
            MemberType::Other
        };
        MemberType::Array(dims.len(), Box::new(elem))
    } else {
        MemberType::Other
    }
}

} // verus!
