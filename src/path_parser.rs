use vstd::prelude::*;

use crate::text::{chars_of, string_of};

verus! {

pub const PATH_MAX_SIZE: usize = 108;

/// A parsed path: the drive number and the chain of its components.
#[derive(Debug)]
pub struct PathRoot {
    pub drive_number: u8,
    pub first: Box<PathPart>,
}

/// One path component and the rest of the chain.
#[derive(Debug)]
pub struct PathPart {
    pub part: String,
    pub next: Option<Box<PathPart>>,
}

#[derive(Debug, PartialEq, Eq)]
pub enum PathValidation {
    Valid(u8, String),
    Invalid(String),
}

/// The components of the chain that starts at `p`, in order.
pub open spec fn parts_of(p: PathPart) -> Seq<Seq<char>>
    decreases p,
{
    seq![p.part@] + match p.next {
        None => Seq::empty(),
        Some(n) => parts_of(*n),
    }
}

/// The components of the chain that `o` starts, if any.
pub open spec fn parts_from(o: Option<Box<PathPart>>) -> Seq<Seq<char>> {
    match o {
        None => Seq::empty(),
        Some(n) => parts_of(*n),
    }
}

/// Index of the first `/` of `r`, or its length if it has none.
pub open spec fn slash_index(r: Seq<char>) -> nat
    decreases r.len(),
{
    if r.len() == 0 || r[0] == '/' {
        0
    } else {
        1 + slash_index(r.drop_first())
    }
}

/// `r` up to its first `/`.
pub open spec fn head(r: Seq<char>) -> Seq<char> {
    r.take(slash_index(r) as int)
}

/// The components after the first one of `r`: the non-empty pieces that
/// follow each `/`. An empty piece (a doubled or trailing `/`) gives no
/// component.
pub open spec fn next_parts(r: Seq<char>) -> Seq<Seq<char>>
    decreases r.len(),
{
    if slash_index(r) >= r.len() {
        Seq::empty()
    } else {
        let after = r.subrange(slash_index(r) as int + 1, r.len() as int);
        if head(after).len() == 0 {
            next_parts(after)
        } else {
            seq![head(after)] + next_parts(after)
        }
    }
}

pub open spec fn msg_too_long() -> Seq<char> {
    "Path > 108 character, too long."@
}

pub open spec fn msg_too_short() -> Seq<char> {
    "Path <= 3 character, too short."@
}

pub open spec fn msg_no_digit() -> Seq<char> {
    "Path does not start with a digit."@
}

pub open spec fn msg_no_suffix() -> Seq<char> {
    "Path does not contain the drive suffix :/ after first digit."@
}

/// What parsing `s` gives: the drive number and the components, or the
/// message of the first check that fails.
pub open spec fn parse_path(s: Seq<char>) -> Result<(u8, Seq<Seq<char>>), Seq<char>> {
    if s.len() > PATH_MAX_SIZE {
        Err(msg_too_long())
    } else if s.len() <= 3 {
        Err(msg_too_short())
    } else if !('0' <= s[0] && s[0] <= '9') {
        Err(msg_no_digit())
    } else if s[1] != ':' || s[2] != '/' {
        Err(msg_no_suffix())
    } else {
        let rest = s.subrange(3, s.len() as int);
        Ok(((s[0] as u32 - '0' as u32) as u8, seq![head(rest)] + next_parts(rest)))
    }
}

proof fn lemma_slash_index(r: Seq<char>, i: int)
    requires
        0 <= i <= r.len(),
        forall|j: int| 0 <= j < i ==> #[trigger] r[j] != '/',
        i == r.len() || r[i] == '/',
    ensures
        slash_index(r) == i,
    decreases i,
{
    if i > 0 {
        lemma_slash_index(r.drop_first(), i - 1);
    }
}

proof fn lemma_slash_bound(r: Seq<char>)
    ensures
        slash_index(r) <= r.len(),
    decreases r.len(),
{
    if r.len() > 0 && r[0] != '/' {
        lemma_slash_bound(r.drop_first());
    }
}

/// Index of the first `/` of `r`, or its length.
fn find_slash(r: &Vec<char>) -> (i: usize)
    ensures
        i == slash_index(r@),
        i <= r@.len(),
{
    let mut i: usize = 0;
    while i < r.len() && r[i] != '/'
        invariant
            i <= r@.len(),
            forall|j: int| 0 <= j < i ==> #[trigger] r@[j] != '/',
        decreases r@.len() - i,
    {
        i = i + 1;
    }
    proof {
        lemma_slash_index(r@, i as int);
    }
    i
}

fn slice_chars(r: &Vec<char>, a: usize, b: usize) -> (s: Vec<char>)
    requires
        a <= b <= r@.len(),
    ensures
        s@ == r@.subrange(a as int, b as int),
{
    let mut s: Vec<char> = Vec::new();
    let mut k: usize = a;
    while k < b
        invariant
            a <= k <= b,
            b <= r@.len(),
            s@ == r@.subrange(a as int, k as int),
        decreases b - k,
    {
        s.push(r[k]);
        assert(r@.subrange(a as int, k + 1) =~= r@.subrange(a as int, k as int).push(r@[k as int]));
        k = k + 1;
    }
    s
}

/// Checks the drive prefix and splits off the rest of the path.
fn valid_path_format(path: String) -> (r: PathValidation)
    ensures
        r matches PathValidation::Invalid(e) ==> parse_path(path@) == Err::<
            (u8, Seq<Seq<char>>),
            Seq<char>,
        >(e@),
        r matches PathValidation::Valid(d, rest) ==> parse_path(path@) is Ok && d == parse_path(
            path@,
        )->Ok_0.0 && rest@ == path@.subrange(3, path@.len() as int),
{
    let s = chars_of(&path);
    if s.len() > PATH_MAX_SIZE {
        return PathValidation::Invalid("Path > 108 character, too long.".to_string());
    } else if s.len() <= 3 {
        return PathValidation::Invalid("Path <= 3 character, too short.".to_string());
    }
    let drive_number = s[0];
    if !('0' <= drive_number && drive_number <= '9') {
        return PathValidation::Invalid("Path does not start with a digit.".to_string());
    }
    if s[1] != ':' || s[2] != '/' {
        return PathValidation::Invalid(
            "Path does not contain the drive suffix :/ after first digit.".to_string(),
        );
    }
    let rest = slice_chars(&s, 3, s.len());
    PathValidation::Valid((drive_number as u32 - '0' as u32) as u8, string_of(&rest))
}

/// Parses `"<digit>:/<part>/<part>/..."` into a drive number and a chain of
/// components.
pub fn init_path(path: String) -> (r: Result<PathRoot, String>)
    ensures
        r matches Err(e) ==> parse_path(path@) == Err::<(u8, Seq<Seq<char>>), Seq<char>>(e@),
        r matches Ok(root) ==> parse_path(path@) == Ok::<(u8, Seq<Seq<char>>), Seq<char>>(
            (root.drive_number, parts_of(*root.first)),
        ),
{
    let ghost whole = path@;
    match valid_path_format(path) {
        PathValidation::Invalid(error) => Err(error),
        PathValidation::Valid(drive_number, rest) => {
            let rest = chars_of(&rest);
            let first_end = find_slash(&rest);
            let first = slice_chars(&rest, 0, first_end);
            assert(first@ =~= head(rest@));
            let mut parts: Vec<Vec<char>> = Vec::new();
            let ghost mut acc: Seq<Seq<char>> = Seq::empty();
            let mut cur = rest;
            let mut slash = first_end;
            assert(next_parts(rest@) =~= acc + next_parts(cur@));
            while slash < cur.len()
                invariant
                    slash == slash_index(cur@),
                    parts@.len() == acc.len(),
                    forall|i: int| 0 <= i < acc.len() ==> #[trigger] parts@[i]@ == acc[i],
                    next_parts(rest@) == acc + next_parts(cur@),
                decreases cur@.len(),
            {
                let after = slice_chars(&cur, slash + 1, cur.len());
                let end = find_slash(&after);
                let part = slice_chars(&after, 0, end);
                assert(part@ =~= head(after@));
                if part.len() > 0 {
                    proof {
                        assert(acc + next_parts(cur@) =~= acc.push(part@) + next_parts(after@));
                        acc = acc.push(part@);
                    }
                    parts.push(part);
                }
                cur = after;
                slash = end;
            }
            assert(acc + next_parts(cur@) =~= acc);
            // Link the chain from its end.
            let mut next: Option<Box<PathPart>> = None;
            let mut j: usize = parts.len();
            assert(acc.subrange(j as int, acc.len() as int) =~= Seq::<Seq<char>>::empty());
            while j > 0
                invariant
                    j <= parts@.len(),
                    parts@.len() == acc.len(),
                    forall|i: int| 0 <= i < acc.len() ==> #[trigger] parts@[i]@ == acc[i],
                    parts_from(next) == acc.subrange(j as int, acc.len() as int),
                decreases j,
            {
                j = j - 1;
                let node = PathPart { part: string_of(&parts[j]), next };
                assert(parts_of(node) =~= acc.subrange(j as int, acc.len() as int));
                next = Some(Box::new(node));
            }
            let root = PathRoot {
                drive_number,
                first: Box::new(PathPart { part: string_of(&first), next }),
            };
            assert(acc.subrange(0, acc.len() as int) =~= acc);
            assert(parts_from(next) == acc);
            assert(next_parts(rest@) == acc);
            assert(parts_of(*root.first) =~= seq![head(rest@)] + next_parts(rest@));
            Ok(root)
        },
    }
}

/// The components `cs` joined with `/`.
pub open spec fn join(cs: Seq<Seq<char>>) -> Seq<char>
    decreases cs.len(),
{
    if cs.len() <= 1 {
        if cs.len() == 0 {
            Seq::empty()
        } else {
            cs[0]
        }
    } else {
        cs[0] + seq!['/'] + join(cs.drop_first())
    }
}

/// `c` holds no `/`.
pub open spec fn no_slash(c: Seq<char>) -> bool {
    forall|k: int| 0 <= k < c.len() ==> #[trigger] c[k] != '/'
}

proof fn lemma_join(cs: Seq<Seq<char>>)
    requires
        cs.len() >= 1,
        forall|i: int| 0 <= i < cs.len() ==> no_slash(#[trigger] cs[i]),
        forall|i: int| 1 <= i < cs.len() ==> (#[trigger] cs[i]).len() > 0,
    ensures
        head(join(cs)) == cs[0],
        next_parts(join(cs)) == cs.drop_first(),
    decreases cs.len(),
{
    let r = join(cs);
    let c0 = cs[0];
    assert(no_slash(c0));
    if cs.len() == 1 {
        lemma_slash_index(r, r.len() as int);
        assert(r.take(r.len() as int) =~= r);
        assert(cs.drop_first() =~= Seq::<Seq<char>>::empty());
    } else {
        let tail = cs.drop_first();
        assert(r == c0 + seq!['/'] + join(tail));
        assert forall|j: int| 0 <= j < c0.len() implies #[trigger] r[j] != '/' by {
            assert(r[j] == c0[j]);
        }
        assert(r[c0.len() as int] == '/');
        lemma_slash_index(r, c0.len() as int);
        assert(r.take(c0.len() as int) =~= c0);
        let after = r.subrange(c0.len() as int + 1, r.len() as int);
        assert(after =~= join(tail));
        assert forall|i: int| 0 <= i < tail.len() implies no_slash(#[trigger] tail[i]) by {
            assert(tail[i] == cs[i + 1]);
        }
        assert forall|i: int| 1 <= i < tail.len() implies (#[trigger] tail[i]).len() > 0 by {
            assert(tail[i] == cs[i + 1]);
        }
        lemma_join(tail);
        assert(tail[0] == cs[1]);
        assert(head(after).len() > 0);
        assert(next_parts(r) == seq![head(after)] + next_parts(after));
        assert(seq![tail[0]] + tail.drop_first() =~= tail);
    }
}

/// A path `"<d>:/<c1>/.../<cn>"` of 4 to 108 characters, whose components
/// are non-empty and hold no `/`, parses to drive `d` and exactly the
/// components `c1`, ..., `cn`, in order.
pub proof fn lemma_parse_components(d: char, cs: Seq<Seq<char>>)
    requires
        '0' <= d && d <= '9',
        cs.len() >= 1,
        forall|i: int| 0 <= i < cs.len() ==> no_slash(#[trigger] cs[i]),
        forall|i: int| 0 <= i < cs.len() ==> (#[trigger] cs[i]).len() > 0,
        3 + join(cs).len() <= PATH_MAX_SIZE,
    ensures
        parse_path(seq![d, ':', '/'] + join(cs)) == Ok::<(u8, Seq<Seq<char>>), Seq<char>>(
            ((d as u32 - '0' as u32) as u8, cs),
        ),
{
    let s = seq![d, ':', '/'] + join(cs);
    assert(s.subrange(3, s.len() as int) =~= join(cs));
    lemma_join(cs);
    assert(join(cs).len() > 0) by {
        if cs.len() > 1 {
            assert(join(cs) == cs[0] + seq!['/'] + join(cs.drop_first()));
        }
    }
    assert(seq![cs[0]] + cs.drop_first() =~= cs);
}

/// A path longer than 108 characters, not longer than 3, whose first
/// character is not a digit, or without `:/` after it, is rejected.
pub proof fn lemma_malformed_rejected(s: Seq<char>)
    requires
        s.len() > PATH_MAX_SIZE || s.len() <= 3 || !('0' <= s[0] && s[0] <= '9') || s[1] != ':'
            || s[2] != '/',
    ensures
        parse_path(s) is Err,
{
}

} // verus!
