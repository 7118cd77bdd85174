//! Character codec: a bijection between the distinct characters of a language
//! and compact integer ids in `0..60`.
//!
//! Ids are assigned in first-seen order by `insert`, so two codecs built from
//! the same character sequence agree on every id. All n-gram tables of the
//! language model are keyed by these ids.

use vstd::prelude::*;

verus! {

/// Why a character could not be encoded or inserted.
#[derive(Clone, Copy, Debug, PartialEq, Eq, Structural)]
pub enum CodecError {
    /// The character was never inserted.
    UnknownCharacter,
    /// The codec already holds 60 characters.
    TooManyCharacters,
}

/// Assigns ids in `0..60` to characters, in first-seen order.
pub struct CharCodec {
    pub chars: Vec<char>,
}

impl CharCodec {
    /// Well-formed: at most 60 characters, all distinct.
    pub open spec fn wf(&self) -> bool {
        &&& self.chars@.len() <= 60
        &&& forall|i: int, j: int|
            0 <= i < j < self.chars@.len() ==> self.chars@[i] != self.chars@[j]
    }

    /// How many characters have been inserted.
    pub open spec fn spec_len(&self) -> nat {
        self.chars@.len()
    }

    /// The character an id stands for.
    pub open spec fn spec_char(&self, id: int) -> char {
        self.chars@[id]
    }

    /// Whether a character has been inserted.
    pub open spec fn knows(&self, c: char) -> bool {
        self.chars@.contains(c)
    }

    /// The id of a character (meaningful only when `knows(c)`).
    pub open spec fn spec_id(&self, c: char) -> int {
        self.chars@.index_of(c)
    }

    /// In a well-formed codec each id decodes back to the character that
    /// produced it.
    pub proof fn lemma_round_trip(&self, c: char)
        requires
            self.wf(),
            self.knows(c),
        ensures
            0 <= self.spec_id(c) < self.spec_len(),
            self.spec_char(self.spec_id(c)) == c,
    {
        let i = choose|i: int| 0 <= i < self.chars@.len() && self.chars@[i] == c;
        assert(self.chars@[i] == c);
    }

    /// Distinct ids decode to distinct characters, and encoding is the inverse
    /// of decoding.
    pub proof fn lemma_bijective(&self, id: int)
        requires
            self.wf(),
            0 <= id < self.spec_len(),
        ensures
            self.knows(self.spec_char(id)),
            self.spec_id(self.spec_char(id)) == id,
    {
        let c = self.chars@[id];
        assert(self.chars@.contains(c));
        let j = self.chars@.index_of(c);
        if j != id {
            assert(self.chars@[j] == self.chars@[id]);
        }
    }

    /// Ids already assigned survive any later insertions.
    pub proof fn lemma_extend_stable(&self, later: &CharCodec, c: char)
        requires
            self.wf(),
            later.wf(),
            self.chars@.is_prefix_of(later.chars@),
            self.knows(c),
        ensures
            later.knows(c),
            later.spec_id(c) == self.spec_id(c),
            self.spec_len() <= later.spec_len(),
    {
        let i = self.chars@.index_of(c);
        assert(self.chars@[i] == c);
        assert(later.chars@[i] == c);
        assert(later.chars@.contains(c));
        let j = later.chars@.index_of(c);
        assert(later.chars@[j] == c);
        if j != i {
            assert(later.chars@[i] == later.chars@[j]);
        }
    }

    /// Prefix extension is transitive.
    pub proof fn lemma_prefix_trans(a: Seq<char>, b: Seq<char>, c: Seq<char>)
        requires
            a.is_prefix_of(b),
            b.is_prefix_of(c),
        ensures
            a.is_prefix_of(c),
    {
        assert(a =~= c.subrange(0, a.len() as int));
    }

    /// An empty codec.
    pub fn new() -> (r: CharCodec)
        ensures
            r.wf(),
            r.spec_len() == 0,
    {
        CharCodec { chars: Vec::new() }
    }

    /// Number of characters inserted so far.
    pub fn len(&self) -> (n: usize)
        ensures
            n == self.spec_len(),
    {
        self.chars.len()
    }

    /// Scan for a character's id.
    fn find(&self, c: char) -> (r: Option<u8>)
        requires
            self.wf(),
        ensures
            match r {
                Some(id) => self.knows(c) && id as int == self.spec_id(c) && (id as nat)
                    < self.spec_len(),
                None => !self.knows(c),
            },
    {
        let mut i: usize = 0;
        while i < self.chars.len()
            invariant
                self.wf(),
                i <= self.chars@.len(),
                forall|k: int| 0 <= k < i ==> self.chars@[k] != c,
            decreases self.chars@.len() - i,
        {
            if self.chars[i] == c {
                proof {
                    let j = self.chars@.index_of(c);
                    assert(self.chars@[j] == c);
                    if j != i {
                        assert(self.chars@[j as int] != self.chars@[i as int]);
                    }
                }
                return Some(i as u8);
            }
            i += 1;
        }
        None
    }

    /// Insert a character, returning its id; idempotent for characters already
    /// seen. Fails only when the codec is full and the character is new.
    pub fn insert(&mut self, c: char) -> (r: Result<u8, CodecError>)
        requires
            old(self).wf(),
        ensures
            final(self).wf(),
            match r {
                Ok(id) => {
                    &&& final(self).knows(c)
                    &&& id as int == final(self).spec_id(c)
                    &&& (id as nat) < final(self).spec_len()
                    &&& final(self).spec_char(id as int) == c
                    &&& if old(self).knows(c) {
                        final(self).chars@ == old(self).chars@
                    } else {
                        final(self).chars@ == old(self).chars@.push(c)
                    }
                },
                Err(e) => {
                    &&& e == CodecError::TooManyCharacters
                    &&& !old(self).knows(c)
                    &&& old(self).spec_len() == 60
                    &&& final(self).chars@ == old(self).chars@
                },
            },
    {
        match self.find(c) {
            Some(id) => Ok(id),
            None => {
                if self.chars.len() == 60 {
                    Err(CodecError::TooManyCharacters)
                } else {
                    let id = self.chars.len() as u8;
                    self.chars.push(c);
                    proof {
                        assert(self.chars@[self.chars@.len() - 1] == c);
                        assert(self.knows(c));
                        let j = self.chars@.index_of(c);
                        assert(self.chars@[j] == c);
                        if j != self.chars@.len() - 1 {
                            assert(old(self).chars@[j] == c);
                        }
                    }
                    Ok(id)
                }
            },
        }
    }

    /// The id of a previously inserted character.
    pub fn encode(&self, c: char) -> (r: Result<u8, CodecError>)
        requires
            self.wf(),
        ensures
            match r {
                Ok(id) => self.knows(c) && id as int == self.spec_id(c) && (id as nat)
                    < self.spec_len(),
                Err(e) => e == CodecError::UnknownCharacter && !self.knows(c),
            },
    {
        match self.find(c) {
            Some(id) => Ok(id),
            None => Err(CodecError::UnknownCharacter),
        }
    }

    /// The character an id was assigned to.
    pub fn decode(&self, id: u8) -> (r: Option<char>)
        requires
            self.wf(),
        ensures
            match r {
                Some(c) => (id as nat) < self.spec_len() && c == self.spec_char(id as int),
                None => (id as nat) >= self.spec_len(),
            },
    {
        if (id as usize) < self.chars.len() {
            Some(self.chars[id as usize])
        } else {
            None
        }
    }

    /// Encode a character sequence id by id.
    pub fn encode_many(&self, s: &Vec<char>) -> (r: Result<Vec<u8>, CodecError>)
        requires
            self.wf(),
        ensures
            match r {
                Ok(ids) => {
                    &&& ids@.len() == s@.len()
                    &&& forall|k: int|
                        0 <= k < ids@.len() ==> self.knows(#[trigger] s@[k]) && ids@[k] as int
                            == self.spec_id(s@[k]) && (ids@[k] as nat) < self.spec_len()
                },
                Err(e) => e == CodecError::UnknownCharacter && exists|k: int|
                    0 <= k < s@.len() && !self.knows(#[trigger] s@[k]),
            },
    {
        let mut ids: Vec<u8> = Vec::new();
        let mut i: usize = 0;
        while i < s.len()
            invariant
                self.wf(),
                i <= s@.len(),
                ids@.len() == i,
                forall|k: int|
                    0 <= k < i ==> self.knows(#[trigger] s@[k]) && ids@[k] as int == self.spec_id(
                        s@[k],
                    ) && (ids@[k] as nat) < self.spec_len(),
            decreases s@.len() - i,
        {
            let ghost old_ids = ids@;
            match self.encode(s[i]) {
                Ok(id) => {
                    ids.push(id);
                    proof {
                        assert forall|k: int|
                            0 <= k < i + 1 implies self.knows(#[trigger] s@[k]) && ids@[k] as int
                            == self.spec_id(s@[k]) && (ids@[k] as nat) < self.spec_len() by {
                            if k < i {
                                assert(ids@[k] == old_ids[k]);
                            } else {
                                assert(ids@[k] == id);
                            }
                        }
                    }
                },
                Err(e) => {
                    return Err(e);
                },
            }
            i += 1;
        }
        Ok(ids)
    }
}

/// The character list a codec holds after inserting a character sequence:
/// unseen characters are appended in order, seen ones change nothing.
pub open spec fn spec_seeded(cs: Seq<char>, s: Seq<char>) -> Seq<char>
    decreases s.len(),
{
    if s.len() == 0 {
        cs
    } else {
        let prior = spec_seeded(cs, s.drop_last());
        if prior.contains(s.last()) {
            prior
        } else {
            prior.push(s.last())
        }
    }
}

/// Seeding a prefix yields a prefix of seeding the whole sequence.
pub proof fn lemma_seeded_prefix(cs: Seq<char>, s: Seq<char>, k: int)
    requires
        0 <= k <= s.len(),
    ensures
        spec_seeded(cs, s.take(k)).is_prefix_of(spec_seeded(cs, s)),
        spec_seeded(cs, s.take(k)).len() <= spec_seeded(cs, s).len(),
    decreases s.len(),
{
    if k == s.len() {
        assert(s.take(k) =~= s);
    } else {
        assert(s.take(k) =~= s.drop_last().take(k));
        lemma_seeded_prefix(cs, s.drop_last(), k);
        let p = spec_seeded(cs, s.take(k));
        let q = spec_seeded(cs, s.drop_last());
        if !q.contains(s.last()) {
            assert(p =~= q.push(s.last()).subrange(0, p.len() as int));
        }
    }
}

/// Seeding only appends: the codec's characters stay a prefix and the count
/// never falls.
pub proof fn lemma_seeded_grows(cs: Seq<char>, s: Seq<char>)
    ensures
        cs.is_prefix_of(spec_seeded(cs, s)),
        cs.len() <= spec_seeded(cs, s).len(),
    decreases s.len(),
{
    if s.len() == 0 {
        assert(cs =~= spec_seeded(cs, s).subrange(0, cs.len() as int));
    } else {
        lemma_seeded_grows(cs, s.drop_last());
        let q = spec_seeded(cs, s.drop_last());
        if !q.contains(s.last()) {
            assert(cs =~= q.push(s.last()).subrange(0, cs.len() as int));
        }
    }
}

/// Seeding distributes over concatenation.
pub proof fn lemma_seeded_add(cs: Seq<char>, a: Seq<char>, b: Seq<char>)
    ensures
        spec_seeded(cs, a + b) == spec_seeded(spec_seeded(cs, a), b),
    decreases b.len(),
{
    if b.len() == 0 {
        assert(a + b =~= a);
    } else {
        assert((a + b).drop_last() =~= a + b.drop_last());
        assert((a + b).last() == b.last());
        lemma_seeded_add(cs, a, b.drop_last());
    }
}

} // verus!
