//! A keyboard layout: a permutation of 30 character ids over the 30 key
//! positions, with a reverse index from id to position for constant-time
//! trigram lookups, and a cached score.

use vstd::prelude::*;

use crate::codec::CharCodec;
use crate::codec::CodecError;
use crate::geometry::PosPair;
use crate::rng::Lcg;

verus! {

/// Why a character sequence is not a valid layout.
#[derive(Clone, Copy, Debug, PartialEq, Eq, Structural)]
pub enum LayoutError {
    /// Fewer than 30 keys after stripping whitespace.
    TooShort,
    /// A key id at or above 60.
    OutOfRange,
    /// The same id on two positions.
    DuplicateKey,
    /// A key character the codec does not know.
    UnknownKey,
}

/// A layout: 30 key ids, a reverse index, and a cached score.
///
/// `pos_of[id]` is the position of `id` on the board, or 30 when the id is not
/// placed. The `score` field is a cache and may be stale until recomputed.
pub struct FastLayout {
    pub matrix: Vec<u8>,
    pub pos_of: Vec<u8>,
    pub score: i128,
}

/// Characters stripped when reading a layout from text.
pub open spec fn spec_is_space(c: char) -> bool {
    c == ' ' || c == '\n' || c == '\r' || c == '\t'
}

/// A character sequence with its whitespace removed, in order.
pub open spec fn strip_spaces(s: Seq<char>) -> Seq<char>
    decreases s.len(),
{
    if s.len() == 0 {
        Seq::empty()
    } else {
        let rest = strip_spaces(s.drop_last());
        if spec_is_space(s.last()) {
            rest
        } else {
            rest.push(s.last())
        }
    }
}

/// The key matrix a text parses to: the ids of its first thirty
/// non-whitespace characters.
pub open spec fn spec_parsed_matrix(con: CharCodec, text: Seq<char>) -> Seq<u8> {
    Seq::new(30, |i: int| con.spec_id(strip_spaces(text)[i]) as u8)
}

/// An exact reverse index for a matrix: every placed id points back at its
/// position, every other id at the sentinel.
pub open spec fn spec_rev_ok(m: Seq<u8>, pos: Seq<u8>) -> bool {
    &&& pos.len() == 60
    &&& forall|i: int| 0 <= i < 30 ==> #[trigger] pos[m[i] as int] == i as u8
    &&& forall|id: int|
        0 <= id < 60 ==> (#[trigger] pos[id]) == 30 || (pos[id] < 30 && m[pos[id] as int]
            == id as u8)
}

/// A rendered layout text: three rows of ten characters, a space between the
/// hands, a newline after each row.
pub open spec fn spec_rendered(codec: CharCodec, m: Seq<u8>, cs: Seq<char>) -> bool {
    &&& cs.len() == 36
    &&& forall|p: int|
        0 <= p < 30 ==> #[trigger] cs[FastLayout::spec_render_idx(p)] == codec.spec_char(
            m[p] as int,
        )
    &&& forall|row: int| 0 <= row < 3 ==> #[trigger] cs[row * 12 + 5] == ' '
    &&& forall|row: int| 0 <= row < 3 ==> #[trigger] cs[row * 12 + 11] == '\n'
}

/// Whether a character is stripped when reading a layout from text.
pub fn is_space(c: char) -> (r: bool)
    ensures
        r == spec_is_space(c),
{
    c == ' ' || c == '\n' || c == '\r' || c == '\t'
}

impl FastLayout {
    /// Well-formed: 30 ids below 60, reverse index exact, every id placed at
    /// most once.
    pub open spec fn wf(&self) -> bool {
        &&& self.matrix@.len() == 30
        &&& self.pos_of@.len() == 60
        &&& forall|i: int| 0 <= i < 30 ==> (#[trigger] self.matrix@[i]) < 60
        &&& forall|i: int|
            0 <= i < 30 ==> #[trigger] self.pos_of@[self.matrix@[i] as int] == i as u8
        &&& forall|id: int|
            0 <= id < 60 ==> (#[trigger] self.pos_of@[id]) == 30 || (self.pos_of@[id] < 30
                && self.matrix@[self.pos_of@[id] as int] == id as u8)
    }

    /// The position of an id, 30 when absent.
    pub open spec fn spec_pos(&self, id: int) -> int {
        self.pos_of@[id] as int
    }

    /// No id sits on two positions.
    pub proof fn lemma_injective(&self, i: int, j: int)
        requires
            self.wf(),
            0 <= i < 30,
            0 <= j < 30,
            self.matrix@[i] == self.matrix@[j],
        ensures
            i == j,
    {
        assert(self.pos_of@[self.matrix@[i] as int] == i as u8);
        assert(self.pos_of@[self.matrix@[j] as int] == j as u8);
    }

    /// Key id at a position.
    pub fn c(&self, i: usize) -> (id: u8)
        requires
            self.wf(),
            i < 30,
        ensures
            id == self.matrix@[i as int],
            id < 60,
    {
        self.matrix[i]
    }

    /// Position of an id, 30 when the id is not on the board.
    pub fn position_of(&self, id: u8) -> (p: usize)
        requires
            self.wf(),
            id < 60,
        ensures
            p == self.spec_pos(id as int),
            p <= 30,
            p < 30 ==> self.matrix@[p as int] == id,
    {
        self.pos_of[id as usize] as usize
    }

    /// Exchange the ids on two positions and fix the reverse index.
    pub fn swap(&mut self, i: usize, j: usize)
        requires
            old(self).wf(),
            i < 30,
            j < 30,
        ensures
            final(self).wf(),
            final(self).matrix@ == old(self).matrix@.update(
                i as int,
                old(self).matrix@[j as int],
            ).update(j as int, old(self).matrix@[i as int]),
            final(self).pos_of@ == old(self).pos_of@.update(
                old(self).matrix@[i as int] as int,
                j as u8,
            ).update(old(self).matrix@[j as int] as int, i as u8),
            final(self).matrix@.to_multiset() == old(self).matrix@.to_multiset(),
            final(self).score == old(self).score,
    {
        let a = self.matrix[i];
        let b = self.matrix[j];
        self.matrix.set(i, b);
        self.matrix.set(j, a);
        self.pos_of.set(a as usize, j as u8);
        self.pos_of.set(b as usize, i as u8);
        proof {
            let m0 = old(self).matrix@;
            let p0 = old(self).pos_of@;
            let m1 = self.matrix@;
            let p1 = self.pos_of@;
            if i != j {
                assert(p0[m0[i as int] as int] == i as u8);
                assert(p0[m0[j as int] as int] == j as u8);
                assert(m0[i as int] != m0[j as int]);
            }
            assert forall|k: int| 0 <= k < 30 implies #[trigger] p1[m1[k] as int] == k as u8 by {
                if k != i && k != j {
                    assert(m1[k] == m0[k]);
                    if m0[k] == a {
                        old(self).lemma_injective(k, i as int);
                    }
                    if m0[k] == b {
                        old(self).lemma_injective(k, j as int);
                    }
                }
            }
            assert forall|id: int| 0 <= id < 60 implies (#[trigger] p1[id]) == 30 || (p1[id] < 30
                && m1[p1[id] as int] == id as u8) by {
                if id != a as int && id != b as int {
                    assert(p1[id] == p0[id]);
                    if p0[id] < 30 {
                        let p = p0[id] as int;
                        assert(m0[p] == id as u8);
                        if p == i as int {
                            assert(false);
                        }
                        if p == j as int {
                            assert(false);
                        }
                    }
                }
            }
            Self::lemma_swap_multiset(m0, i as int, j as int);
        }
    }

    /// Swapping two positions keeps the multiset of placed ids.
    pub proof fn lemma_swap_multiset(s: Seq<u8>, i: int, j: int)
        requires
            0 <= i < s.len(),
            0 <= j < s.len(),
        ensures
            s.update(i, s[j]).update(j, s[i]).to_multiset() == s.to_multiset(),
    {
        broadcast use vstd::seq_lib::to_multiset_update;
        broadcast use vstd::seq_lib::group_to_multiset_ensures;
        broadcast use vstd::multiset::group_multiset_axioms;

        let s1 = s.update(i, s[j]);
        let s2 = s1.update(j, s[i]);
        assert(s.contains(s[i]));
        assert(s.to_multiset().count(s[i]) > 0);
        assert(s1.to_multiset() == s.to_multiset().insert(s[j]).remove(s[i]));
        assert(s1[j] == s[j]);
        assert(s2.to_multiset() == s1.to_multiset().insert(s[i]).remove(s[j]));
        assert(s2.to_multiset() =~= s.to_multiset());
    }

    /// Exchange the ids of a candidate swap pair.
    pub fn swap_pair(&mut self, pair: &PosPair)
        requires
            old(self).wf(),
            pair.0 < 30,
            pair.1 < 30,
        ensures
            final(self).wf(),
            final(self).matrix@ == old(self).matrix@.update(
                pair.0 as int,
                old(self).matrix@[pair.1 as int],
            ).update(pair.1 as int, old(self).matrix@[pair.0 as int]),
            final(self).pos_of@ == old(self).pos_of@.update(
                old(self).matrix@[pair.0 as int] as int,
                pair.1 as u8,
            ).update(old(self).matrix@[pair.1 as int] as int, pair.0 as u8),
            final(self).matrix@.to_multiset() == old(self).matrix@.to_multiset(),
            final(self).score == old(self).score,
    {
        self.swap(pair.0, pair.1)
    }

    /// A deep copy.
    pub fn duplicate(&self) -> (r: FastLayout)
        ensures
            r.matrix@ == self.matrix@,
            r.pos_of@ == self.pos_of@,
            r.score == self.score,
    {
        let mut matrix: Vec<u8> = Vec::new();
        let mut i: usize = 0;
        while i < self.matrix.len()
            invariant
                i <= self.matrix@.len(),
                matrix@ == self.matrix@.take(i as int),
            decreases self.matrix@.len() - i,
        {
            matrix.push(self.matrix[i]);
            proof {
                assert(matrix@ =~= self.matrix@.take(i + 1));
            }
            i += 1;
        }
        let mut pos_of: Vec<u8> = Vec::new();
        let mut k: usize = 0;
        while k < self.pos_of.len()
            invariant
                k <= self.pos_of@.len(),
                pos_of@ == self.pos_of@.take(k as int),
            decreases self.pos_of@.len() - k,
        {
            pos_of.push(self.pos_of[k]);
            proof {
                assert(pos_of@ =~= self.pos_of@.take(k + 1));
            }
            k += 1;
        }
        proof {
            assert(matrix@ =~= self.matrix@);
            assert(pos_of@ =~= self.pos_of@);
        }
        FastLayout { matrix, pos_of, score: self.score }
    }

    /// Build a layout from 30 ids; rejects bad lengths, ids at or above 60,
    /// and repeated ids. Succeeds on exactly the valid inputs.
    pub fn from_ids(ids: &Vec<u8>) -> (r: Result<FastLayout, LayoutError>)
        ensures
            match r {
                Ok(l) => {
                    &&& l.wf()
                    &&& l.matrix@ == ids@
                    &&& l.score == 0
                },
                Err(e) => {
                    &&& !(ids@.len() == 30 && (forall|k: int|
                        0 <= k < 30 ==> (#[trigger] ids@[k]) < 60) && (forall|k: int, l: int|
                        0 <= k < l < 30 ==> ids@[k] != ids@[l]))
                    &&& (e == LayoutError::TooShort ==> ids@.len() != 30)
                    &&& (e == LayoutError::OutOfRange ==> exists|k: int|
                        0 <= k < 30 && (#[trigger] ids@[k]) >= 60)
                    &&& (e == LayoutError::DuplicateKey ==> exists|k: int, l: int|
                        0 <= k < l < 30 && ids@[k] == ids@[l])
                    &&& e != LayoutError::UnknownKey
                },
            },
            r is Ok <==> (ids@.len() == 30 && (forall|k: int|
                0 <= k < 30 ==> (#[trigger] ids@[k]) < 60) && (forall|k: int, l: int|
                0 <= k < l < 30 ==> ids@[k] != ids@[l])),
    {
        if ids.len() != 30 {
            return Err(LayoutError::TooShort);
        }
        let mut pos_of: Vec<u8> = Vec::new();
        while pos_of.len() < 60
            invariant
                pos_of@.len() <= 60,
                forall|id: int| 0 <= id < pos_of@.len() ==> (#[trigger] pos_of@[id]) == 30,
            decreases 60 - pos_of@.len(),
        {
            pos_of.push(30);
        }
        let mut matrix: Vec<u8> = Vec::new();
        let mut i: usize = 0;
        while i < 30
            invariant
                ids@.len() == 30,
                i <= 30,
                matrix@ == ids@.take(i as int),
                pos_of@.len() == 60,
                forall|k: int| 0 <= k < i ==> (#[trigger] ids@[k]) < 60,
                forall|k: int| 0 <= k < i ==> #[trigger] pos_of@[ids@[k] as int] == k as u8,
                forall|id: int|
                    0 <= id < 60 ==> (#[trigger] pos_of@[id]) == 30 || (pos_of@[id] < i
                        && ids@[pos_of@[id] as int] == id as u8),
            decreases 30 - i,
        {
            let id = ids[i];
            if id >= 60 {
                return Err(LayoutError::OutOfRange);
            }
            if pos_of[id as usize] != 30 {
                proof {
                    let p = pos_of@[id as int] as int;
                    assert(ids@[p] == ids@[i as int]);
                }
                return Err(LayoutError::DuplicateKey);
            }
            pos_of.set(id as usize, i as u8);
            matrix.push(id);
            proof {
                assert(matrix@ =~= ids@.take(i + 1));
            }
            i += 1;
        }
        proof {
            assert(matrix@ =~= ids@);
            assert forall|k: int, l: int| 0 <= k < l < 30 implies ids@[k] != ids@[l] by {
                if ids@[k] == ids@[l] {
                    assert(pos_of@[ids@[k] as int] == k as u8);
                    assert(pos_of@[ids@[l] as int] == l as u8);
                }
            }
        }
        Ok(FastLayout { matrix, pos_of, score: 0 })
    }

    /// The plain 30 characters of the layout, in position order.
    pub fn layout_str(&self, codec: &CharCodec) -> (r: Result<Vec<char>, CodecError>)
        requires
            self.wf(),
            codec.wf(),
        ensures
            match r {
                Ok(cs) => {
                    &&& cs@.len() == 30
                    &&& forall|p: int|
                        0 <= p < 30 ==> ((#[trigger] self.matrix@[p]) as nat) < codec.spec_len()
                    &&& forall|p: int|
                        0 <= p < 30 ==> #[trigger] cs@[p] == codec.spec_char(
                            self.matrix@[p] as int,
                        )
                },
                Err(e) => e == CodecError::UnknownCharacter && exists|p: int|
                    0 <= p < 30 && (#[trigger] self.matrix@[p] as nat) >= codec.spec_len(),
            },
    {
        let mut cs: Vec<char> = Vec::new();
        let mut p: usize = 0;
        while p < 30
            invariant
                self.wf(),
                codec.wf(),
                p <= 30,
                cs@.len() == p,
                forall|t: int|
                    0 <= t < p ==> ((#[trigger] self.matrix@[t]) as nat) < codec.spec_len(),
                forall|t: int|
                    0 <= t < p ==> #[trigger] cs@[t] == codec.spec_char(self.matrix@[t] as int),
            decreases 30 - p,
        {
            let ghost oldcs = cs@;
            let id = self.c(p);
            match codec.decode(id) {
                Some(c) => {
                    cs.push(c);
                    proof {
                        assert((id as nat) < codec.spec_len() && c == codec.spec_char(id as int));
                        assert forall|t: int|
                            0 <= t < p + 1 implies ((#[trigger] self.matrix@[t]) as nat)
                            < codec.spec_len() by {}
                        assert forall|t: int|
                            0 <= t < p + 1 implies #[trigger] cs@[t] == codec.spec_char(
                            self.matrix@[t] as int,
                        ) by {
                            if t < p {
                                assert(cs@[t] == oldcs[t]);
                                assert(oldcs[t] == codec.spec_char(self.matrix@[t] as int));
                            } else {
                                assert(cs@[t] == c);
                            }
                        }
                    }
                },
                None => {
                    return Err(CodecError::UnknownCharacter);
                },
            }
            p += 1;
        }
        Ok(cs)
    }

    /// Where position `p` lands in the rendered text: rows are separated by a
    /// newline and the two hands of a row by a space.
    pub open spec fn spec_render_idx(p: int) -> int {
        (p / 10) * 12 + (p % 10) + if p % 10 >= 5 {
            1int
        } else {
            0int
        }
    }

    /// Render the layout: three rows of ten characters, a space between the
    /// hands, a newline after each row.
    pub fn render(&self, codec: &CharCodec) -> (r: Result<Vec<char>, CodecError>)
        requires
            self.wf(),
            codec.wf(),
        ensures
            match r {
                Ok(cs) => spec_rendered(*codec, self.matrix@, cs@),
                Err(e) => e == CodecError::UnknownCharacter && exists|p: int|
                    0 <= p < 30 && (#[trigger] self.matrix@[p] as nat) >= codec.spec_len(),
            },
            r is Ok <==> (forall|p: int|
                0 <= p < 30 ==> ((#[trigger] self.matrix@[p]) as nat) < codec.spec_len()),
    {
        let plain = match self.layout_str(codec) {
            Ok(cs) => cs,
            Err(e) => {
                return Err(e);
            },
        };
        let mut cs: Vec<char> = Vec::new();
        let mut row: usize = 0;
        while row < 3
            invariant
                row <= 3,
                cs@.len() == row * 12,
                plain@.len() == 30,
                forall|p: int|
                    0 <= p < 30 ==> #[trigger] plain@[p] == codec.spec_char(
                        self.matrix@[p] as int,
                    ),
                forall|p: int|
                    0 <= p < row * 10 ==> #[trigger] cs@[Self::spec_render_idx(p)] == plain@[p],
                forall|t: int| 0 <= t < row ==> #[trigger] cs@[t * 12 + 5] == ' ',
                forall|t: int| 0 <= t < row ==> #[trigger] cs@[t * 12 + 11] == '\n',
            decreases 3 - row,
        {
            let mut col: usize = 0;
            while col < 10
                invariant
                    row < 3,
                    col <= 10,
                    cs@.len() == row * 12 + col + if col > 5 {
                        1int
                    } else {
                        0int
                    },
                    plain@.len() == 30,
                    forall|p: int|
                        0 <= p < 30 ==> #[trigger] plain@[p] == codec.spec_char(
                            self.matrix@[p] as int,
                        ),
                    forall|p: int|
                        0 <= p < row * 10 + col ==> #[trigger] cs@[Self::spec_render_idx(p)]
                            == plain@[p],
                    forall|t: int| 0 <= t < row ==> #[trigger] cs@[t * 12 + 5] == ' ',
                    forall|t: int| 0 <= t < row ==> #[trigger] cs@[t * 12 + 11] == '\n',
                    col > 5 ==> cs@[row * 12 + 5] == ' ',
                decreases 10 - col,
            {
                let ghost oldcs = cs@;
                if col == 5 {
                    cs.push(' ');
                }
                cs.push(plain[row * 10 + col]);
                proof {
                    let p = (row * 10 + col) as int;
                    assert((p / 10) == row && (p % 10) == col) by (nonlinear_arith)
                        requires
                            p == row * 10 + col,
                            0 <= col < 10,
                            0 <= row,
                    ;
                    assert(Self::spec_render_idx(p) == cs@.len() - 1);
                    assert forall|q: int|
                        0 <= q < row * 10 + col + 1 implies #[trigger] cs@[Self::spec_render_idx(
                        q,
                    )] == plain@[q] by {
                        if q < row * 10 + col {
                            assert((q / 10) * 12 + (q % 10) + 1 < oldcs.len() || Self::spec_render_idx(
                                q,
                            ) < oldcs.len()) by (nonlinear_arith)
                                requires
                                    0 <= q < row * 10 + col,
                                    0 <= col < 10,
                                    row < 3,
                                    oldcs.len() == row * 12 + col + if col > 5 {
                                        1int
                                    } else {
                                        0int
                                    },
                            ;
                            assert(cs@[Self::spec_render_idx(q)] == oldcs[Self::spec_render_idx(
                                q,
                            )]);
                        }
                    }
                }
                col += 1;
            }
            let ghost precs = cs@;
            cs.push('\n');
            proof {
                assert(cs@[row * 12 + 11] == '\n');
                assert forall|p: int|
                    0 <= p < (row + 1) * 10 implies #[trigger] cs@[Self::spec_render_idx(p)]
                    == plain@[p] by {
                    if p < row * 10 + 10 {
                        assert(Self::spec_render_idx(p) < precs.len()) by (nonlinear_arith)
                            requires
                                0 <= p < row * 10 + 10,
                                row < 3,
                                precs.len() == row * 12 + 11,
                        ;
                        assert(cs@[Self::spec_render_idx(p)] == precs[Self::spec_render_idx(p)]);
                    }
                    assert((row + 1) * 10 == row * 10 + 10) by (nonlinear_arith);
                }
                assert((row + 1) * 12 == row * 12 + 12) by (nonlinear_arith);
            }
            row += 1;
        }
        Ok(cs)
    }

    /// Fill the board with a uniformly shuffled copy of a 30-id alphabet.
    pub fn random(chars: &Vec<u8>, rng: &mut Lcg) -> (r: FastLayout)
        requires
            old(rng).wf(),
            chars@.len() == 30,
            forall|i: int| 0 <= i < 30 ==> (#[trigger] chars@[i]) < 60,
            forall|i: int, j: int| 0 <= i < j < 30 ==> chars@[i] != chars@[j],
        ensures
            final(rng).wf(),
            r.wf(),
            r.matrix@.to_multiset() == chars@.to_multiset(),
            r.score == 0,
    {
        let mut l = match Self::from_ids(chars) {
            Ok(l) => l,
            Err(_) => vstd::pervasive::unreached(),
        };
        let mut i: usize = 29;
        while i >= 1
            invariant
                rng.wf(),
                l.wf(),
                1 <= i <= 29,
                l.matrix@.to_multiset() == chars@.to_multiset(),
                l.score == 0,
            decreases i,
        {
            let j = rng.next_below(i + 1);
            l.swap(i, j);
            if i == 1 {
                break ;
            }
            i -= 1;
        }
        l
    }

    /// Shuffle a template, holding the listed pinned positions fixed.
    pub fn random_pins(based_on: &FastLayout, pins: &Vec<usize>, rng: &mut Lcg) -> (r: FastLayout)
        requires
            old(rng).wf(),
            based_on.wf(),
        ensures
            final(rng).wf(),
            r.wf(),
            r.matrix@.to_multiset() == based_on.matrix@.to_multiset(),
            forall|q: int|
                0 <= q < pins@.len() && (#[trigger] pins@[q]) < 30 ==> r.matrix@[pins@[q] as int]
                    == based_on.matrix@[pins@[q] as int],
            r.score == based_on.score,
    {
        let mut pinned: Vec<bool> = Vec::new();
        while pinned.len() < 30
            invariant
                pinned@.len() <= 30,
                forall|p: int| 0 <= p < pinned@.len() ==> !(#[trigger] pinned@[p]),
            decreases 30 - pinned@.len(),
        {
            pinned.push(false);
        }
        let mut q: usize = 0;
        while q < pins.len()
            invariant
                q <= pins@.len(),
                pinned@.len() == 30,
                forall|t: int|
                    0 <= t < q && (#[trigger] pins@[t]) < 30 ==> pinned@[pins@[t] as int],
                forall|p: int|
                    0 <= p < 30 && (#[trigger] pinned@[p]) ==> exists|t: int|
                        0 <= t < q && pins@[t] == p,
            decreases pins@.len() - q,
        {
            let p = pins[q];
            if p < 30 {
                pinned.set(p, true);
                proof {
                    assert forall|p2: int| 0 <= p2 < 30 && (#[trigger] pinned@[p2]) implies exists|
                        t: int,
                    | 0 <= t < q + 1 && pins@[t] == p2 by {
                        if p2 == p as int {
                            assert(pins@[q as int] == p2);
                        } else {
                            let t = choose|t: int| 0 <= t < q && pins@[t] == p2;
                            assert(pins@[t] == p2);
                        }
                    }
                }
            }
            q += 1;
        }
        let mut free: Vec<usize> = Vec::new();
        let mut p: usize = 0;
        while p < 30
            invariant
                p <= 30,
                pinned@.len() == 30,
                free@.len() <= p,
                forall|t: int|
                    0 <= t < free@.len() ==> (#[trigger] free@[t]) < 30 && !pinned@[free@[t] as int],
            decreases 30 - p,
        {
            if !pinned[p] {
                free.push(p);
            }
            p += 1;
        }
        let mut l = based_on.duplicate();
        if free.len() >= 2 {
            let mut i: usize = free.len() - 1;
            while i >= 1
                invariant
                    rng.wf(),
                    l.wf(),
                    pinned@.len() == 30,
                    free@.len() <= 30,
                    1 <= i < free@.len(),
                    forall|t: int|
                        0 <= t < free@.len() ==> (#[trigger] free@[t]) < 30 && !pinned@[free@[t] as int],
                    l.matrix@.to_multiset() == based_on.matrix@.to_multiset(),
                    forall|p2: int|
                        0 <= p2 < 30 && (#[trigger] pinned@[p2]) ==> l.matrix@[p2]
                            == based_on.matrix@[p2],
                    l.score == based_on.score,
                decreases i,
            {
                let j = rng.next_below(i + 1);
                l.swap(free[i], free[j]);
                if i == 1 {
                    break ;
                }
                i -= 1;
            }
        }
        proof {
            assert forall|q2: int|
                0 <= q2 < pins@.len() && (#[trigger] pins@[q2]) < 30 implies l.matrix@[pins@[q2] as int]
                == based_on.matrix@[pins@[q2] as int] by {
                assert(pinned@[pins@[q2] as int]);
            }
        }
        l
    }

    /// Read a layout from text through a codec: strip whitespace, take the
    /// first 30 remaining characters.
    pub fn parse(codec: &CharCodec, text: &Vec<char>) -> (r: Result<FastLayout, LayoutError>)
        requires
            codec.wf(),
        ensures
            match r {
                Ok(l) => {
                    &&& l.wf()
                    &&& l.score == 0
                    &&& strip_spaces(text@).len() >= 30
                    &&& forall|k: int|
                        0 <= k < 30 ==> codec.knows(#[trigger] strip_spaces(text@)[k])
                            && l.matrix@[k] as int == codec.spec_id(strip_spaces(text@)[k])
                    &&& l.matrix@ == spec_parsed_matrix(*codec, text@)
                },
                Err(LayoutError::TooShort) => strip_spaces(text@).len() < 30,
                Err(LayoutError::UnknownKey) => exists|k: int|
                    0 <= k < 30 && !codec.knows(#[trigger] strip_spaces(text@)[k]),
                Err(LayoutError::DuplicateKey) => exists|k: int, t: int|
                    0 <= k < t < 30 && strip_spaces(text@)[k] == strip_spaces(text@)[t],
                Err(_) => true,
            },
            r is Ok <==> (strip_spaces(text@).len() >= 30 && (forall|k: int|
                0 <= k < 30 ==> codec.knows(#[trigger] strip_spaces(text@)[k])) && (forall|
                k: int,
                t: int,
            |
                0 <= k < t < 30 ==> strip_spaces(text@)[k] != strip_spaces(text@)[t])),
    {
        let mut cleaned: Vec<char> = Vec::new();
        let mut i: usize = 0;
        while i < text.len()
            invariant
                i <= text@.len(),
                cleaned@ == strip_spaces(text@.take(i as int)),
            decreases text@.len() - i,
        {
            let c = text[i];
            proof {
                assert(text@.take(i + 1).drop_last() =~= text@.take(i as int));
                assert(text@.take(i + 1).last() == text@[i as int]);
            }
            if !is_space(c) {
                cleaned.push(c);
            }
            i += 1;
        }
        proof {
            assert(text@.take(text@.len() as int) =~= text@);
        }
        if cleaned.len() < 30 {
            return Err(LayoutError::TooShort);
        }
        let mut ids: Vec<u8> = Vec::new();
        let mut k: usize = 0;
        while k < 30
            invariant
                codec.wf(),
                k <= 30,
                cleaned@.len() >= 30,
                cleaned@ == strip_spaces(text@),
                ids@.len() == k,
                forall|m: int|
                    0 <= m < k ==> codec.knows(#[trigger] cleaned@[m]) && ids@[m] as int
                        == codec.spec_id(cleaned@[m]) && (ids@[m] as nat) < codec.spec_len(),
            decreases 30 - k,
        {
            let ghost old_ids = ids@;
            match codec.encode(cleaned[k]) {
                Ok(id) => {
                    ids.push(id);
                    proof {
                        assert forall|m: int|
                            0 <= m < k + 1 implies codec.knows(#[trigger] cleaned@[m])
                            && ids@[m] as int == codec.spec_id(cleaned@[m]) && (ids@[m] as nat)
                            < codec.spec_len() by {
                            if m < k {
                                assert(ids@[m] == old_ids[m]);
                            } else {
                                assert(ids@[m] == id);
                            }
                        }
                    }
                },
                Err(_) => {
                    return Err(LayoutError::UnknownKey);
                },
            }
            k += 1;
        }
        proof {
            assert forall|k: int, t: int|
                0 <= k < t < 30 implies (ids@[k] == ids@[t] <==> cleaned@[k] == cleaned@[t]) by {
                codec.lemma_round_trip(cleaned@[k]);
                codec.lemma_round_trip(cleaned@[t]);
            }
        }
        match Self::from_ids(&ids) {
            Ok(l) => {
                proof {
                    assert(l.matrix@ =~= spec_parsed_matrix(*codec, text@));
                }
                Ok(l)
            },
            Err(e) => {
                proof {
                    assert(ids@.len() == 30);
                    assert forall|k: int| 0 <= k < 30 implies (#[trigger] ids@[k]) < 60 by {
                        assert(codec.knows(cleaned@[k]));
                    }
                    assert(e == LayoutError::DuplicateKey);
                    let (k, t) = choose|k: int, t: int|
                        0 <= k < t < 30 && ids@[k] == ids@[t];
                    assert(cleaned@[k] == cleaned@[t]);
                }
                Err(e)
            },
        }
    }
}

} // verus!
