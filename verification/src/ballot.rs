//! The normalized ballot model: an immutable sequence of at most five
//! expressed preferences, no candidate twice, blanks only at the end.

use vstd::prelude::*;

verus! {

/// A ballot offers at most this many ranking slots.
pub const MAX_CHOICES: usize = 5;

/// Normalization of one raw five-slot ranking, scanning left to right.
/// A slot value of 0 means "no preference"; a value `v` in `1..=n_cands`
/// names candidate `v - 1`; anything else is an unrecognized token and is
/// dropped as if blank.  A candidate already recorded further left is
/// dropped too, so the result is duplicate-free and left-packed.
pub open spec fn spec_normalize(raw: Seq<u8>, n_cands: usize) -> Seq<usize>
    decreases raw.len(),
{
    if raw.len() == 0 {
        Seq::empty()
    } else {
        let pre = spec_normalize(raw.drop_last(), n_cands);
        let v: u8 = raw.last();
        if 1 <= v && v <= n_cands && !pre.contains((v - 1) as usize) {
            pre.push((v - 1) as usize)
        } else {
            pre
        }
    }
}

/// Index of the first occurrence of `c` in `s`, or `s.len()` when `c` does
/// not occur.  A candidate with a smaller position is preferred.
pub open spec fn spec_pos(s: Seq<usize>, c: usize) -> int
    decreases s.len(),
{
    if s.len() == 0 {
        0
    } else if s[0] == c {
        0
    } else {
        1 + spec_pos(s.drop_first(), c)
    }
}

/// What `spec_pos` returns: the first occurrence when `c` occurs, the length
/// of the sequence when it does not.
pub proof fn lemma_spec_pos(s: Seq<usize>, c: usize)
    ensures
        0 <= spec_pos(s, c) <= s.len(),
        spec_pos(s, c) < s.len() <==> s.contains(c),
        spec_pos(s, c) < s.len() ==> s[spec_pos(s, c)] == c,
        forall|j: int| 0 <= j < spec_pos(s, c) ==> s[j] != c,
    decreases s.len(),
{
    if s.len() == 0 {
    } else if s[0] == c {
        assert(s.contains(c)) by {
            assert(s[0] == c);
        }
    } else {
        let rest = s.drop_first();
        lemma_spec_pos(rest, c);
        assert forall|j: int| 0 <= j < spec_pos(s, c) implies s[j] != c by {
            if j > 0 {
                assert(rest[j - 1] == s[j]);
            }
        }
        if rest.contains(c) {
            let k: int = choose|k: int| 0 <= k < rest.len() && rest[k] == c;
            assert(s[k + 1] == c);
            assert(s.contains(c));
        }
        if s.contains(c) {
            let k: int = choose|k: int| 0 <= k < s.len() && s[k] == c;
            assert(k >= 1);
            assert(rest[k - 1] == c);
            assert(rest.contains(c));
        }
    }
}

/// The first expressed preference of a ballot, if any.
pub open spec fn spec_first(s: Seq<usize>) -> Option<usize> {
    if s.len() == 0 {
        None
    } else {
        Some(s[0])
    }
}

/// The later choices of a ballot: the expressed preferences with the first
/// one removed, order preserved.
pub open spec fn spec_later(s: Seq<usize>) -> Seq<usize> {
    if s.len() == 0 {
        s
    } else {
        s.drop_first()
    }
}

/// The compact five-byte form of a normalized ballot: choice `c` is stored
/// as `c + 1` and trailing slots are 0.
pub open spec fn spec_compact(s: Seq<usize>) -> Seq<u8> {
    Seq::new(MAX_CHOICES as nat, |i: int| if i < s.len() {
            (s[i] + 1) as u8
        } else {
            0u8
        })
}

/// One voter's normalized ranking: the expressed preferences in order of
/// rank, identified by candidate index.  Immutable once constructed.
#[derive(Debug)]
pub struct Ballot {
    choices: Vec<usize>,
}

impl View for Ballot {
    type V = Seq<usize>;

    closed spec fn view(&self) -> Seq<usize> {
        self.choices@
    }
}

impl Ballot {
    /// The ballot invariant: at most five expressed choices, no candidate
    /// appearing twice.
    pub open spec fn wf(&self) -> bool {
        &&& self@.len() <= MAX_CHOICES
        &&& forall|i: int, j: int| 0 <= i < j < self@.len() ==> self@[i] != self@[j]
    }

    /// Every expressed choice names one of the `n_cands` candidates.
    pub open spec fn valid_for(&self, n_cands: usize) -> bool {
        forall|i: int| 0 <= i < self@.len() ==> self@[i] < n_cands
    }

    /// Builds a ballot from one raw five-slot ranking, de-duplicating and
    /// left-packing as `spec_normalize` describes.
    pub fn from_raw(raw: &Vec<u8>, n_cands: usize) -> (b: Ballot)
        requires
            raw@.len() == MAX_CHOICES,
        ensures
            b@ == spec_normalize(raw@, n_cands),
            b.wf(),
            b.valid_for(n_cands),
    {
        let mut choices: Vec<usize> = Vec::new();
        let mut i: usize = 0;
        while i < raw.len()
            invariant
                i <= raw@.len(),
                raw@.len() == MAX_CHOICES,
                choices@ == spec_normalize(raw@.subrange(0, i as int), n_cands),
                choices@.len() <= i,
                forall|p: int, q: int|
                    0 <= p < q < choices@.len() ==> choices@[p] != choices@[q],
                forall|p: int| 0 <= p < choices@.len() ==> choices@[p] < n_cands,
            decreases raw@.len() - i,
        {
            let v: u8 = raw[i];
            proof {
                assert(raw@.subrange(0, i + 1).drop_last() =~= raw@.subrange(0, i as int));
                assert(raw@.subrange(0, i + 1).last() == raw@[i as int]);
            }
            if 1 <= v && (v as usize) <= n_cands && !vec_contains(&choices, (v - 1) as usize) {
                choices.push((v - 1) as usize);
            }
            i = i + 1;
        }
        proof {
            assert(raw@.subrange(0, raw@.len() as int) =~= raw@);
        }
        Ballot { choices }
    }

    /// The number of expressed preferences.
    pub fn count(&self) -> (r: usize)
        ensures
            r == self@.len(),
    {
        self.choices.len()
    }

    /// The choice at rank `i` (0-indexed among expressed preferences).
    pub fn choice(&self, i: usize) -> (r: usize)
        requires
            i < self@.len(),
        ensures
            r == self@[i as int],
    {
        self.choices[i]
    }

    /// The first expressed preference, if any.
    pub fn first_pref(&self) -> (r: Option<usize>)
        ensures
            r == spec_first(self@),
    {
        if self.choices.len() == 0 {
            None
        } else {
            Some(self.choices[0])
        }
    }

    /// The position a ballot ranks candidate `c` at, or the number of
    /// expressed preferences when `c` is unranked.
    pub fn position_of(&self, c: usize) -> (r: usize)
        ensures
            r == spec_pos(self@, c),
    {
        vec_position_of(&self.choices, c)
    }

    /// The later choices: every expressed preference after the first.
    pub fn later_choices(&self) -> (r: Vec<usize>)
        ensures
            r@ == spec_later(self@),
    {
        let mut r: Vec<usize> = Vec::new();
        if self.choices.len() == 0 {
            return r;
        }
        let mut i: usize = 1;
        while i < self.choices.len()
            invariant
                1 <= i <= self@.len(),
                r@ == self@.subrange(1, i as int),
            decreases self@.len() - i,
        {
            r.push(self.choices[i]);
            proof {
                assert(self@.subrange(1, i + 1) =~= self@.subrange(1, i as int).push(
                    self@[i as int]));
            }
            i = i + 1;
        }
        proof {
            assert(self@.subrange(1, self@.len() as int) =~= spec_later(self@));
        }
        r
    }

    /// Encodes the ballot in the compact five-byte on-disk form.
    pub fn compact(&self) -> (r: Vec<u8>)
        requires
            self.wf(),
            self.valid_for(255),
        ensures
            r@ == spec_compact(self@),
    {
        let mut r: Vec<u8> = Vec::new();
        let mut i: usize = 0;
        while i < MAX_CHOICES
            invariant
                i <= MAX_CHOICES,
                self.wf(),
                self.valid_for(255),
                r@.len() == i,
                forall|k: int| 0 <= k < i ==> r@[k] == spec_compact(self@)[k],
            decreases MAX_CHOICES - i,
        {
            if i < self.choices.len() {
                r.push((self.choices[i] + 1) as u8);
            } else {
                r.push(0u8);
            }
            i = i + 1;
        }
        proof {
            assert(r@ =~= spec_compact(self@));
        }
        r
    }
}

/// Law: normalizing a raw ranking with no duplicates and no gaps is the
/// identity up to encoding — each non-zero slot value `v` names candidate
/// `v - 1`, and they are kept in order, nothing dropped.
pub proof fn lemma_normalize_identity(raw: Seq<u8>, n_cands: usize)
    requires
        forall|i: int, j: int| 0 <= i < j < raw.len() && raw[i] == 0 ==> raw[j] == 0,
        forall|i: int| 0 <= i < raw.len() ==> raw[i] <= n_cands,
        forall|i: int, j: int| 0 <= i < j < raw.len() && raw[i] != 0 ==> raw[i] != raw[j],
    ensures
        spec_normalize(raw, n_cands).len() <= raw.len(),
        forall|i: int|
            0 <= i < spec_normalize(raw, n_cands).len() ==> raw[i] != 0 && spec_normalize(
                raw,
                n_cands,
            )[i] == raw[i] - 1,
        forall|i: int| spec_normalize(raw, n_cands).len() <= i < raw.len() ==> raw[i] == 0,
    decreases raw.len(),
{
    if raw.len() > 0 {
        let pre_raw = raw.drop_last();
        assert forall|i: int| 0 <= i < pre_raw.len() implies pre_raw[i] == raw[i] by {}
        lemma_normalize_identity(pre_raw, n_cands);
        let pre = spec_normalize(pre_raw, n_cands);
        let v: u8 = raw.last();
        if v != 0 {
            assert forall|i: int| 0 <= i < raw.len() - 1 implies raw[i] != 0 by {
                if raw[i] == 0 {
                    assert(raw[raw.len() - 1] == 0);
                }
            }
            assert(pre.len() == pre_raw.len()) by {
                if pre.len() < pre_raw.len() {
                    assert(pre_raw[pre.len() as int] == 0);
                }
            }
            assert(!pre.contains((v - 1) as usize)) by {
                if pre.contains((v - 1) as usize) {
                    let k: int = choose|k: int|
                        0 <= k < pre.len() && pre[k] == (v - 1) as usize;
                    assert(pre[k] == raw[k] - 1);
                    assert(raw[k] == v);
                    assert(raw[k] != raw[raw.len() - 1]);
                }
            }
            assert(spec_normalize(raw, n_cands) == pre.push((v - 1) as usize));
        }
    }
}

/// Law: a well-formed ballot survives the compact-encoding round trip — the
/// five-byte form decodes back to the very same ranking.
pub proof fn lemma_compact_round_trip(b: Ballot, n_cands: usize)
    requires
        b.wf(),
        b.valid_for(n_cands),
        n_cands <= 255,
    ensures
        spec_normalize(spec_compact(b@), n_cands) == b@,
{
    let raw = spec_compact(b@);
    assert forall|i: int| 0 <= i < b@.len() implies raw[i] == b@[i] + 1 by {
        assert(b@[i] < n_cands <= 255);
    }
    lemma_normalize_identity(raw, n_cands);
    let nb = spec_normalize(raw, n_cands);
    assert(nb.len() == b@.len()) by {
        if nb.len() < b@.len() {
            assert(raw[nb.len() as int] == b@[nb.len() as int] + 1);
            assert(raw[nb.len() as int] == 0);
        }
        if nb.len() > b@.len() {
            assert(raw[b@.len() as int] != 0);
        }
    }
    assert forall|i: int| 0 <= i < nb.len() implies nb[i] == b@[i] by {
        assert(nb[i] == raw[i] - 1);
        assert(raw[i] == b@[i] + 1);
    }
    assert(nb =~= b@);
}

/// Index of the first occurrence of `c` in `v`, or `v.len()` when `c` does
/// not occur.
pub fn vec_position_of(v: &Vec<usize>, c: usize) -> (r: usize)
    ensures
        r == spec_pos(v@, c),
{
    let mut i: usize = 0;
    while i < v.len()
        invariant
            i <= v@.len(),
            forall|k: int| 0 <= k < i ==> v@[k] != c,
        decreases v@.len() - i,
    {
        if v[i] == c {
            proof {
                lemma_spec_pos(v@, c);
                assert(v@.contains(c)) by {
                    assert(v@[i as int] == c);
                }
                if spec_pos(v@, c) < i {
                    assert(v@[spec_pos(v@, c)] != c);
                }
            }
            return i;
        }
        i = i + 1;
    }
    proof {
        lemma_spec_pos(v@, c);
        if v@.contains(c) {
            let k: int = choose|k: int| 0 <= k < v@.len() && v@[k] == c;
            assert(v@[k] != c);
        }
    }
    i
}

/// Whether `v` holds `x`.
fn vec_contains(v: &Vec<usize>, x: usize) -> (r: bool)
    ensures
        r == v@.contains(x),
{
    let mut i: usize = 0;
    while i < v.len()
        invariant
            i <= v@.len(),
            forall|k: int| 0 <= k < i ==> v@[k] != x,
        decreases v@.len() - i,
    {
        if v[i] == x {
            proof {
                assert(v@.contains(x)) by {
                    assert(v@[i as int] == x);
                }
            }
            return true;
        }
        i = i + 1;
    }
    false
}

} // verus!
