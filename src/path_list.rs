use vstd::prelude::*;
use crate::bytes::{contains_byte, copy_bytes};

verus! {

/// The byte that separates entries of a search-path list.
pub const SEPARATOR: u8 = 58;

/// Splitting a list, read left to right: each separator opens a new, empty
/// segment; every other byte extends the last segment.
pub open spec fn split_spec(s: Seq<u8>) -> Seq<Seq<u8>>
    decreases s.len(),
{
    if s.len() == 0 {
        seq![Seq::<u8>::empty()]
    } else {
        let prev = split_spec(s.drop_last());
        if s.last() == SEPARATOR {
            prev.push(Seq::<u8>::empty())
        } else {
            prev.update(prev.len() - 1, prev.last().push(s.last()))
        }
    }
}

/// Joining segments with one separator between consecutive ones.
pub open spec fn join_spec(ps: Seq<Seq<u8>>) -> Seq<u8>
    decreases ps.len(),
{
    if ps.len() == 0 {
        Seq::<u8>::empty()
    } else if ps.len() == 1 {
        ps[0]
    } else {
        join_spec(ps.drop_last()).push(SEPARATOR) + ps.last()
    }
}

pub open spec fn has_separator(p: Seq<u8>) -> bool {
    p.contains(SEPARATOR)
}

pub open spec fn any_has_separator(ps: Seq<Seq<u8>>) -> bool {
    exists|i: int| 0 <= i < ps.len() && #[trigger] has_separator(ps[i])
}

pub open spec fn views(ps: Seq<Vec<u8>>) -> Seq<Seq<u8>> {
    ps.map_values(|p: Vec<u8>| p@)
}

pub proof fn lemma_split_nonempty(s: Seq<u8>)
    ensures
        split_spec(s).len() >= 1,
    decreases s.len(),
{
    if s.len() > 0 {
        lemma_split_nonempty(s.drop_last());
    }
}

/// Appending separator-free bytes to a list extends its last segment.
proof fn lemma_split_extend(y: Seq<u8>, l: Seq<u8>)
    requires
        !has_separator(l),
    ensures
        split_spec(y + l) == split_spec(y).update(
            split_spec(y).len() - 1,
            split_spec(y).last() + l,
        ),
    decreases l.len(),
{
    lemma_split_nonempty(y);
    if l.len() == 0 {
        assert(y + l =~= y);
        assert(split_spec(y).last() + l =~= split_spec(y).last());
        assert(split_spec(y).update(split_spec(y).len() - 1, split_spec(y).last())
            =~= split_spec(y));
    } else {
        let l0 = l.drop_last();
        assert(!has_separator(l0)) by {
            if l0.contains(SEPARATOR) {
                let j = choose|j: int| 0 <= j < l0.len() && l0[j] == SEPARATOR;
                assert(l[j] == SEPARATOR);
            }
        }
        lemma_split_extend(y, l0);
        assert((y + l).drop_last() =~= y + l0);
        assert(l[l.len() - 1] != SEPARATOR) by {
            if l[l.len() - 1] == SEPARATOR {
                assert(l.contains(SEPARATOR));
            }
        }
        assert(split_spec(y).last() + l =~= (split_spec(y).last() + l0).push(l.last()));
        assert(split_spec(y + l) =~= split_spec(y).update(
            split_spec(y).len() - 1,
            split_spec(y).last() + l,
        ));
    }
}

/// Joining the segments of any list gives the list back.
pub proof fn lemma_join_split(s: Seq<u8>)
    ensures
        join_spec(split_spec(s)) == s,
        !any_has_separator(split_spec(s)),
    decreases s.len(),
{
    if s.len() > 0 {
        let s0 = s.drop_last();
        let b = s.last();
        let ps = split_spec(s0);
        lemma_join_split(s0);
        lemma_split_nonempty(s0);
        let qs = split_spec(s);
        if b == SEPARATOR {
            assert(qs.drop_last() =~= ps);
            assert(join_spec(qs) =~= s);
            assert forall|i: int| 0 <= i < qs.len() implies !#[trigger] has_separator(qs[i]) by {
                if i < ps.len() {
                    assert(qs[i] == ps[i]);
                    assert(!has_separator(ps[i]));
                } else {
                    assert(qs[i] =~= Seq::<u8>::empty());
                }
            }
        } else {
            let x = ps.last().push(b);
            assert(qs.drop_last() =~= ps.drop_last());
            if ps.len() == 1 {
                assert(join_spec(qs) =~= s);
            } else {
                let j0 = join_spec(ps.drop_last()).push(SEPARATOR);
                assert(join_spec(qs) == j0 + qs.last());
                assert(qs.last() == x);
                assert(s0 == j0 + ps.last());
                assert(j0 + x =~= (j0 + ps.last()).push(b));
                assert(join_spec(qs) =~= s);
            }
            assert forall|i: int| 0 <= i < qs.len() implies !#[trigger] has_separator(qs[i]) by {
                if i < ps.len() - 1 {
                    assert(qs[i] == ps[i]);
                    assert(!has_separator(ps[i]));
                } else {
                    assert(!has_separator(ps[i]));
                    if x.contains(SEPARATOR) {
                        let j = choose|j: int| 0 <= j < x.len() && x[j] == SEPARATOR;
                        if j < ps.last().len() {
                            assert(ps.last()[j] == SEPARATOR);
                            assert(ps[i].contains(SEPARATOR));
                        }
                    }
                }
            }
        }
    }
}

/// For one or more separator-free segments, splitting their join gives the
/// segments back.
pub proof fn lemma_split_join(ps: Seq<Seq<u8>>)
    requires
        ps.len() >= 1,
        !any_has_separator(ps),
    ensures
        split_spec(join_spec(ps)) == ps,
    decreases ps.len(),
{
    if ps.len() == 1 {
        lemma_split_extend(Seq::<u8>::empty(), ps[0]);
        assert(Seq::<u8>::empty() + ps[0] =~= ps[0]);
        assert(split_spec(ps[0]) =~= ps);
    } else {
        let init = ps.drop_last();
        assert(!any_has_separator(init)) by {
            if any_has_separator(init) {
                let i = choose|i: int| 0 <= i < init.len() && #[trigger] has_separator(init[i]);
                assert(has_separator(ps[i]));
            }
        }
        assert(!has_separator(ps.last())) by {
            assert(!has_separator(ps[ps.len() - 1]));
        }
        lemma_split_join(init);
        let y = join_spec(init).push(SEPARATOR);
        assert(split_spec(y) == split_spec(join_spec(init)).push(Seq::<u8>::empty())) by {
            assert(y.drop_last() =~= join_spec(init));
        }
        lemma_split_extend(y, ps.last());
        assert(Seq::<u8>::empty() + ps.last() =~= ps.last());
        assert(split_spec(join_spec(ps)) =~= ps);
    }
}

/// Joining no segments gives an empty list.
pub proof fn lemma_join_empty()
    ensures
        join_spec(Seq::<Seq<u8>>::empty()) == Seq::<u8>::empty(),
        !any_has_separator(Seq::<Seq<u8>>::empty()),
{
}

/// Joining one segment gives that segment, with no separator added.
pub proof fn lemma_join_single(p: Seq<u8>)
    ensures
        join_spec(seq![p]) == p,
{
}

/// The segments of a list, handed out one at a time.
pub struct SplitPaths {
    segments: Vec<Vec<u8>>,
    pos: usize,
}

impl SplitPaths {
    pub closed spec fn wf(&self) -> bool {
        self.pos <= self.segments@.len()
    }

    /// The segments not yet handed out, in order.
    pub closed spec fn remaining(&self) -> Seq<Seq<u8>> {
        views(self.segments@).subrange(self.pos as int, self.segments@.len() as int)
    }

    /// Hands out the next segment, if any is left.
    pub fn next(&mut self) -> (r: Option<Vec<u8>>)
        requires
            old(self).wf(),
        ensures
            final(self).wf(),
            old(self).remaining().len() == 0 ==> r.is_none() && final(self).remaining()
                == old(self).remaining(),
            old(self).remaining().len() > 0 ==> r.is_some() && r.unwrap()@ == old(
                self,
            ).remaining()[0] && final(self).remaining() == old(self).remaining().drop_first(),
    {
        if self.pos < self.segments.len() {
            let seg = copy_bytes(self.segments[self.pos].as_slice());
            self.pos = self.pos + 1;
            assert(self.remaining() =~= old(self).remaining().drop_first());
            Some(seg)
        } else {
            None
        }
    }

    /// The exact number of segments left, as lower and upper bound.
    pub fn size_hint(&self) -> (r: (usize, Option<usize>))
        requires
            self.wf(),
        ensures
            r.0 == self.remaining().len(),
            r.1 == Some(r.0),
    {
        let n = self.segments.len() - self.pos;
        (n, Some(n))
    }
}

/// Splits a list at every separator. Empty segments are kept, so a list of
/// n separators gives n + 1 segments.
pub fn split_paths(unparsed: &[u8]) -> (r: SplitPaths)
    ensures
        r.wf(),
        r.remaining() == split_spec(unparsed@),
{
    let mut segments: Vec<Vec<u8>> = Vec::new();
    let mut cur: Vec<u8> = Vec::new();
    let mut i: usize = 0;
    while i < unparsed.len()
        invariant
            i <= unparsed@.len(),
            views(segments@).push(cur@) == split_spec(unparsed@.subrange(0, i as int)),
        decreases unparsed@.len() - i,
    {
        let b = unparsed[i];
        let ghost before = views(segments@).push(cur@);
        let ghost pre = unparsed@.subrange(0, i as int);
        assert(unparsed@.subrange(0, i + 1).drop_last() =~= pre);
        if b == SEPARATOR {
            let done = cur;
            segments.push(done);
            cur = Vec::new();
            assert(views(segments@) =~= before);
        } else {
            cur.push(b);
            assert(views(segments@).push(cur@) =~= before.update(
                before.len() - 1,
                before.last().push(b),
            ));
        }
        i = i + 1;
    }
    segments.push(cur);
    assert(unparsed@.subrange(0, unparsed@.len() as int) =~= unparsed@);
    let r = SplitPaths { segments, pos: 0 };
    assert(r.remaining() =~= split_spec(unparsed@));
    r
}

/// The failure of joining a segment that holds the separator.
#[derive(Debug, PartialEq, Eq, Structural)]
pub struct JoinPathsError;

impl JoinPathsError {
    /// What went wrong, in words.
    pub fn message(&self) -> (r: String)
        ensures
            r@ == "path segment contains separator `:`"@,
    {
        String::from_str("path segment contains separator `:`")
    }

    /// A short summary of the failure.
    pub fn description(&self) -> (r: String)
        ensures
            r@ == "failed to join paths"@,
    {
        String::from_str("failed to join paths")
    }
}

/// Joins segments with the separator between consecutive ones. Fails, with
/// nothing returned, when any segment holds the separator.
pub fn join_paths(paths: &[Vec<u8>]) -> (r: Result<Vec<u8>, JoinPathsError>)
    ensures
        r.is_err() <==> any_has_separator(views(paths@)),
        r.is_ok() ==> r.unwrap()@ == join_spec(views(paths@)),
{
    let mut joined: Vec<u8> = Vec::new();
    let mut i: usize = 0;
    while i < paths.len()
        invariant
            i <= paths@.len(),
            joined@ == join_spec(views(paths@).take(i as int)),
            !any_has_separator(views(paths@).take(i as int)),
        decreases paths@.len() - i,
    {
        let path = paths[i].as_slice();
        let ghost ps = views(paths@);
        if i > 0 {
            joined.push(SEPARATOR);
        }
        if contains_byte(path, SEPARATOR) {
            assert(has_separator(ps[i as int]));
            return Err(JoinPathsError);
        }
        let ghost prev = joined@;
        joined.extend_from_slice(path);
        assert(ps.take(i + 1).drop_last() =~= ps.take(i as int));
        assert(ps.take(i + 1).last() == path@);
        assert(joined@ =~= join_spec(ps.take(i + 1)));
        assert(!any_has_separator(ps.take(i + 1))) by {
            if any_has_separator(ps.take(i + 1)) {
                let k = choose|k: int| 0 <= k < i + 1 && #[trigger] has_separator(ps.take(i + 1)[k]);
                if k < i {
                    assert(ps.take(i as int)[k] == ps.take(i + 1)[k]);
                }
            }
        }
        i = i + 1;
    }
    assert(views(paths@).take(paths@.len() as int) =~= views(paths@));
    Ok(joined)
}

} // verus!
