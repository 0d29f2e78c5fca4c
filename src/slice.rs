//! The slice-spec parser: `file[:start[:end]]` into a file name and bounds.

use vstd::prelude::*;

use crate::bound::{
    bound_value, decimal, is_digit, lemma_decimal_bound, lemma_decimal_digits, parse_bound,
};

verus! {

/// The pieces of `s` between its `:` characters, in order: one more piece
/// than `s` has colons.
pub open spec fn split_colons(s: Seq<char>) -> Seq<Seq<char>>
    decreases s.len(),
{
    if s.len() == 0 {
        seq![Seq::<char>::empty()]
    } else {
        let t = split_colons(s.drop_last());
        if s.last() == ':' {
            t.push(Seq::<char>::empty())
        } else {
            t.update(t.len() - 1, t.last().push(s.last()))
        }
    }
}

/// The pieces of `ts` put back together, with a `:` between two pieces.
pub open spec fn join_colons(ts: Seq<Seq<char>>) -> Seq<char>
    decreases ts.len(),
{
    if ts.len() == 0 {
        Seq::<char>::empty()
    } else if ts.len() == 1 {
        ts[0]
    } else {
        join_colons(ts.drop_last()) + seq![':'] + ts.last()
    }
}

/// `s` holds no `:` at or after position `k`.
pub open spec fn no_colon_from(s: Seq<char>, k: int) -> bool {
    forall|m: int| k <= m < s.len() ==> #[trigger] s[m] != ':'
}

/// The part of the pieces that is the file name before any bound falls
/// back into it: all pieces but the last two, joined, or the first piece
/// where there are fewer than three.
pub open spec fn base_name(ts: Seq<Seq<char>>) -> Seq<char> {
    if ts.len() <= 2 {
        ts[0]
    } else {
        join_colons(ts.subrange(0, ts.len() - 2))
    }
}

/// The piece that may give the start bound.
pub open spec fn start_candidate(ts: Seq<Seq<char>>) -> Option<Seq<char>> {
    if ts.len() == 2 {
        Some(ts[1])
    } else if ts.len() >= 3 {
        Some(ts[ts.len() - 2])
    } else {
        None
    }
}

/// The piece that may give the end bound.
pub open spec fn end_candidate(ts: Seq<Seq<char>>) -> Option<Seq<char>> {
    if ts.len() >= 3 {
        Some(ts[ts.len() - 1])
    } else {
        None
    }
}

/// A candidate that is there, is not empty and is no bound: it goes back
/// into the file name.
pub open spec fn falls_back(c: Option<Seq<char>>) -> bool {
    c is Some && c->0.len() > 0 && bound_value(c->0) is None
}

/// The file name after `c` has been looked at: with `:` and `c` appended
/// where `c` falls back, unchanged otherwise.
pub open spec fn absorbed_name(name: Seq<char>, c: Option<Seq<char>>) -> Seq<char> {
    if falls_back(c) {
        name + seq![':'] + c->0
    } else {
        name
    }
}

/// The bound that `c` gives: none where `c` is absent, empty or no bound.
pub open spec fn candidate_bound(c: Option<Seq<char>>) -> Option<usize> {
    if c is Some && c->0.len() > 0 {
        bound_value(c->0)
    } else {
        None
    }
}

/// There is always at least one piece.
pub proof fn lemma_split_nonempty(s: Seq<char>)
    ensures
        split_colons(s).len() >= 1,
    decreases s.len(),
{
    if s.len() > 0 {
        lemma_split_nonempty(s.drop_last());
    }
}

/// Characters after the last colon only extend the last piece.
proof fn lemma_split_tail(s: Seq<char>, k: int)
    requires
        0 <= k <= s.len(),
        no_colon_from(s, k),
    ensures
        ({
            let t = split_colons(s.subrange(0, k));
            split_colons(s) == t.update(t.len() - 1, t.last() + s.subrange(k, s.len() as int))
        }),
    decreases s.len(),
{
    let t = split_colons(s.subrange(0, k));
    lemma_split_nonempty(s.subrange(0, k));
    if k == s.len() {
        assert(s.subrange(0, k) =~= s);
        assert(t.last() + s.subrange(k, s.len() as int) =~= t.last());
        assert(t.update(t.len() - 1, t.last()) =~= t);
    } else {
        let p = s.drop_last();
        assert(p.subrange(0, k) =~= s.subrange(0, k));
        assert(no_colon_from(p, k));
        lemma_split_tail(p, k);
        assert(s.last() == s[s.len() - 1]);
        assert(t.last() + s.subrange(k, s.len() as int) =~= (t.last() + p.subrange(
            k,
            p.len() as int,
        )).push(s.last()));
        lemma_split_nonempty(p);
        assert(split_colons(s) =~= t.update(
            t.len() - 1,
            t.last() + s.subrange(k, s.len() as int),
        ));
    }
}

/// Where `i` is the last colon of `s`, the pieces of `s` are those before it
/// and then what follows it.
pub proof fn lemma_split_last_colon(s: Seq<char>, i: int)
    requires
        0 <= i < s.len(),
        s[i] == ':',
        no_colon_from(s, i + 1),
    ensures
        split_colons(s) == split_colons(s.subrange(0, i)).push(s.subrange(i + 1, s.len() as int)),
{
    lemma_split_tail(s, i + 1);
    let q = s.subrange(0, i + 1);
    assert(q.drop_last() =~= s.subrange(0, i));
    assert(q.last() == ':');
    let t = split_colons(s.subrange(0, i));
    assert(split_colons(q) == t.push(Seq::<char>::empty()));
    assert(Seq::<char>::empty() + s.subrange(i + 1, s.len() as int) =~= s.subrange(
        i + 1,
        s.len() as int,
    ));
    assert(split_colons(s) =~= t.push(s.subrange(i + 1, s.len() as int)));
}

/// A string without colons is a single piece.
pub proof fn lemma_split_no_colon(s: Seq<char>)
    requires
        no_colon_from(s, 0),
    ensures
        split_colons(s) == seq![s],
{
    lemma_split_tail(s, 0);
    assert(s.subrange(0, 0) =~= Seq::<char>::empty());
    assert(s.subrange(0, s.len() as int) =~= s);
    assert(Seq::<char>::empty() + s =~= s);
    assert(split_colons(s) =~= seq![s]);
}

/// Joining the pieces of `s` gives back `s`.
pub proof fn lemma_join_split(s: Seq<char>)
    ensures
        join_colons(split_colons(s)) == s,
    decreases s.len(),
{
    if s.len() > 0 {
        let p = s.drop_last();
        let t = split_colons(p);
        lemma_join_split(p);
        lemma_split_nonempty(p);
        if s.last() == ':' {
            assert(split_colons(s).drop_last() =~= t);
            assert(join_colons(split_colons(s)) =~= s);
        } else {
            let u = split_colons(s);
            if t.len() == 1 {
                assert(join_colons(u) =~= s);
            } else {
                assert(u.drop_last() =~= t.drop_last());
                assert(u.last() == t.last().push(s.last()));
                assert(join_colons(t) == join_colons(t.drop_last()) + seq![':'] + t.last());
                assert(join_colons(u) == join_colons(t.drop_last()) + seq![':'] + u.last());
                assert(s =~= p.push(s.last()));
                assert(join_colons(u) =~= s);
            }
        }
    }
}

/// What a slice spec holds, as mathematical values.
pub ghost struct SliceView {
    pub filename: Seq<char>,
    pub start: Option<usize>,
    pub end: Option<usize>,
}

/// The slice spec that `s` denotes.
pub open spec fn parse_slice(s: Seq<char>) -> SliceView {
    let ts = split_colons(s);
    SliceView {
        filename: absorbed_name(
            absorbed_name(base_name(ts), start_candidate(ts)),
            end_candidate(ts),
        ),
        start: candidate_bound(start_candidate(ts)),
        end: candidate_bound(end_candidate(ts)),
    }
}

/// A file name with an optional line range, both bounds 1-based and
/// inclusive.
#[derive(Debug, PartialEq)]
pub struct SliceSpec {
    pub filename: String,
    pub start: Option<usize>,
    pub end: Option<usize>,
}

impl View for SliceSpec {
    type V = SliceView;

    open spec fn view(&self) -> SliceView {
        SliceView { filename: self.filename@, start: self.start, end: self.end }
    }
}

/// The position of the last `:` of `s` before position `end`, if any.
fn last_colon_before(s: &str, end: usize) -> (r: Option<usize>)
    requires
        end <= s@.len(),
    ensures
        match r {
            Some(k) => k < end && s@[k as int] == ':' && forall|m: int|
                k < m < end ==> #[trigger] s@[m] != ':',
            None => forall|m: int| 0 <= m < end ==> #[trigger] s@[m] != ':',
        },
{
    let mut i = end;
    while i > 0
        invariant
            i <= end <= s@.len(),
            forall|m: int| i <= m < end ==> #[trigger] s@[m] != ':',
        decreases i,
    {
        if s.get_char(i - 1) == ':' {
            return Some(i - 1);
        }
        i = i - 1;
    }
    None
}

/// Looks at the candidate bound `c` for a spec whose file name so far is
/// `name`: an absent or empty `c` changes nothing, a number becomes the bound, and
/// anything else goes back into the name after a `:`.
fn absorb(name: String, c: Option<&str>) -> (r: (String, Option<usize>))
    ensures
        r.0@ == absorbed_name(name@, opt_view(c)),
        r.1 == candidate_bound(opt_view(c)),
{
    let c = match c {
        Some(c) => c,
        None => return (name, None),
    };
    if c.unicode_len() == 0 {
        return (name, None);
    }
    match parse_bound(c) {
        Some(v) => (name, Some(v)),
        None => {
            let mut name = name;
            let sep = ":";
            proof {
                reveal_strlit(":");
            }
            name.append(sep);
            name.append(c);
            (name, None)
        },
    }
}

/// The view of an optional piece of text.
pub open spec fn opt_view(o: Option<&str>) -> Option<Seq<char>> {
    match o {
        Some(t) => Some(t@),
        None => None,
    }
}

/// Splits `path` at its colons into the file name before any fallback and
/// the candidate start and end bounds: the last two pieces are the
/// candidates (the last one alone, where there are two pieces) and the
/// pieces before them, joined again with `:`, are the file name.
pub fn split_path<'a>(path: &'a str) -> (r: (String, Option<&'a str>, Option<&'a str>))
    ensures
        r.0@ == base_name(split_colons(path@)),
        opt_view(r.1) == start_candidate(split_colons(path@)),
        opt_view(r.2) == end_candidate(split_colons(path@)),
{
    let n = path.unicode_len();
    match last_colon_before(path, n) {
        None => {
            proof {
                lemma_split_no_colon(path@);
            }
            (String::from_str(path), None, None)
        },
        Some(i) => {
            let rest = path.substring_char(i + 1, n);
            proof {
                lemma_split_last_colon(path@, i as int);
            }
            match last_colon_before(path, i) {
                None => {
                    let head = path.substring_char(0, i);
                    proof {
                        lemma_split_no_colon(head@);
                    }
                    (String::from_str(head), Some(rest), None)
                },
                Some(j) => {
                    let head = path.substring_char(0, j);
                    let mid = path.substring_char(j + 1, i);
                    proof {
                        let before = path@.subrange(0, i as int);
                        assert(before.subrange(0, j as int) =~= head@);
                        assert(before.subrange(j + 1, i as int) =~= mid@);
                        lemma_split_last_colon(before, j as int);
                        lemma_join_split(head@);
                        let ts = split_colons(path@);
                        assert(ts.subrange(0, ts.len() - 2) =~= split_colons(head@));
                    }
                    (String::from_str(head), Some(mid), Some(rest))
                },
            }
        },
    }
}

impl<'a> From<&'a str> for SliceSpec {
    /// Decodes `file[:start[:end]]`. After [`split_path`], an empty
    /// candidate bound leaves its bound unset, a number sets it, and any
    /// other candidate is appended back to the file name after a `:`, the
    /// start candidate before the end one.
    fn from(s: &'a str) -> (r: SliceSpec)
        ensures
            r@ == parse_slice(s@),
    {
        let (filename, start, end) = split_path(s);
        let (filename, start) = absorb(filename, start);
        let (filename, end) = absorb(filename, end);
        SliceSpec { filename, start, end }
    }
}

impl<'a> vstd::std_specs::convert::FromSpecImpl<&'a str> for SliceSpec {
    open spec fn obeys_from_spec() -> bool {
        false
    }

    open spec fn from_spec(v: &'a str) -> SliceSpec {
        arbitrary()
    }
}

/// A string without colons is a bare file name: no bound is set and the
/// name is the whole string.
pub proof fn lemma_plain_name(s: Seq<char>)
    requires
        no_colon_from(s, 0),
    ensures
        parse_slice(s) == (SliceView { filename: s, start: None, end: None }),
{
    lemma_split_no_colon(s);
}

/// A colon-free file name followed by `:a:b`, with `a` and `b` written in
/// decimal, decodes to that name with start `a` and end `b`.
pub proof fn lemma_name_with_bounds(f: Seq<char>, a: usize, b: usize)
    requires
        no_colon_from(f, 0),
    ensures
        parse_slice(f + seq![':'] + decimal(a as nat) + seq![':'] + decimal(b as nat)) == (
        SliceView { filename: f, start: Some(a), end: Some(b) }),
{
    let da = decimal(a as nat);
    let db = decimal(b as nat);
    lemma_decimal_digits(a as nat);
    lemma_decimal_digits(b as nat);
    lemma_decimal_bound(a);
    lemma_decimal_bound(b);
    let head = f + seq![':'] + da;
    let s = head + seq![':'] + db;
    let i = head.len() as int;
    let j = f.len() as int;
    assert(s[i] == ':');
    assert forall|m: int| i + 1 <= m < s.len() implies #[trigger] s[m] != ':' by {
        assert(s[m] == db[m - i - 1]);
        assert(is_digit(db[m - i - 1]));
    }
    lemma_split_last_colon(s, i);
    assert(s.subrange(0, i) =~= head);
    assert(s.subrange(i + 1, s.len() as int) =~= db);
    assert(head[j] == ':');
    assert forall|m: int| j + 1 <= m < head.len() implies #[trigger] head[m] != ':' by {
        assert(head[m] == da[m - j - 1]);
        assert(is_digit(da[m - j - 1]));
    }
    lemma_split_last_colon(head, j);
    assert(head.subrange(0, j) =~= f);
    assert(head.subrange(j + 1, head.len() as int) =~= da);
    lemma_split_no_colon(f);
    let ts = split_colons(s);
    assert(ts =~= seq![f, da, db]);
    assert(ts.subrange(0, 1) =~= seq![f]);
}

/// Where each candidate bound is non-empty and neither is a number, the
/// file name is the whole input, colons included.
pub proof fn lemma_round_trip(s: Seq<char>)
    requires
        start_candidate(split_colons(s)) is Some ==> start_candidate(split_colons(s))->0.len()
            > 0,
        end_candidate(split_colons(s)) is Some ==> end_candidate(split_colons(s))->0.len() > 0,
        parse_slice(s).start is None,
        parse_slice(s).end is None,
    ensures
        parse_slice(s).filename == s,
{
    let ts = split_colons(s);
    let n = ts.len();
    lemma_split_nonempty(s);
    lemma_join_split(s);
    if n == 2 {
        assert(ts.drop_last() =~= seq![ts[0]]);
        assert(join_colons(ts) == join_colons(ts.drop_last()) + seq![':'] + ts[1]);
        assert(parse_slice(s).filename =~= join_colons(ts));
    } else if n >= 3 {
        let d = ts.drop_last();
        assert(d.drop_last() =~= ts.subrange(0, n - 2));
        assert(join_colons(d) == join_colons(d.drop_last()) + seq![':'] + ts[n - 2]);
        assert(parse_slice(s).filename =~= join_colons(ts));
    }
}

/// A candidate bound that is not a number is appended to the file name
/// once, after a single `:`, and the start candidate before the end one.
pub proof fn lemma_fallback_order(s: Seq<char>)
    ensures
        ({
            let ts = split_colons(s);
            let name = base_name(ts);
            let a = start_candidate(ts);
            let b = end_candidate(ts);
            let f = parse_slice(s).filename;
            &&& falls_back(a) && falls_back(b) ==> f == name + seq![':'] + a->0 + seq![':']
                + b->0
            &&& falls_back(a) && !falls_back(b) ==> f == name + seq![':'] + a->0
            &&& !falls_back(a) && falls_back(b) ==> f == name + seq![':'] + b->0
            &&& !falls_back(a) && !falls_back(b) ==> f == name
        }),
{
}

} // verus!
