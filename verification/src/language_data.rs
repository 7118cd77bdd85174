//! The language model: character, bigram, skipgram and trigram frequencies
//! over the id space of a character codec.
//!
//! The builders seed the codec in iteration order: the character table first,
//! then every n-gram, inserting unseen characters as they appear. Pair tables
//! are dense 60 by 60 grids indexed by `a * 60 + b`; the trigram list keeps
//! the input order (the corpus is expected pre-sorted by descending
//! frequency), and drops trigrams whose first two or last two ids repeat.

use vstd::prelude::*;

use crate::codec::CharCodec;
use crate::codec::lemma_seeded_add;
use crate::codec::lemma_seeded_prefix;
use crate::codec::spec_seeded;
use crate::fixed::FREQ_CAP;
use crate::fixed::TRIGRAM_CAP;

verus! {

/// Why a corpus could not be loaded.
#[derive(Clone, Copy, Debug, PartialEq, Eq, Structural)]
pub enum DataError {
    /// More than 60 distinct characters.
    TooManyCharacters,
    /// A frequency outside `[0, FREQ_CAP]`.
    BadFrequency,
    /// More trigrams than `TRIGRAM_CAP`.
    TooManyTrigrams,
    /// Fewer than 30 characters: no layout can be filled.
    TooFewCharacters,
}

/// One trigram: three ids and a frequency.
#[derive(Clone, Copy, Debug, PartialEq, Eq, Structural)]
pub struct TrigramEntry {
    pub c0: u8,
    pub c1: u8,
    pub c2: u8,
    pub freq: i64,
}

/// Index of an id pair in a dense 60 by 60 table.
pub open spec fn spec_pair_idx(a: int, b: int) -> int {
    a * 60 + b
}

/// The characters a character-frequency input feeds to the codec, in order.
pub open spec fn spec_chars_of_singles(s: Seq<(char, i64)>) -> Seq<char> {
    Seq::new(s.len(), |i: int| s[i].0)
}

/// The characters a pair input feeds to the codec, in order.
pub open spec fn spec_chars_of_pairs(s: Seq<(char, char, i64)>) -> Seq<char> {
    Seq::new(
        2 * s.len(),
        |i: int|
            if i % 2 == 0 {
                s[i / 2].0
            } else {
                s[i / 2].1
            },
    )
}

/// Every character a whole corpus feeds to the codec, in loading order.
pub open spec fn spec_all_corpus_chars(
    characters: Seq<(char, i64)>,
    bigrams: Seq<(char, char, i64)>,
    skipgrams: Seq<(char, char, i64)>,
    skipgrams2: Seq<(char, char, i64)>,
    skipgrams3: Seq<(char, char, i64)>,
    trigrams: Seq<(char, char, char, i64)>,
) -> Seq<char> {
    spec_chars_of_singles(characters) + spec_chars_of_pairs(bigrams) + spec_chars_of_pairs(
        skipgrams,
    ) + spec_chars_of_pairs(skipgrams2) + spec_chars_of_pairs(skipgrams3) + spec_chars_of_triples(
        trigrams,
    )
}

/// The characters a trigram input feeds to the codec, in order.
pub open spec fn spec_chars_of_triples(s: Seq<(char, char, char, i64)>) -> Seq<char> {
    Seq::new(
        3 * s.len(),
        |i: int|
            if i % 3 == 0 {
                s[i / 3].0
            } else if i % 3 == 1 {
                s[i / 3].1
            } else {
                s[i / 3].2
            },
    )
}

/// A pair index stays within the table.
pub proof fn lemma_pair_idx_bound(a: int, b: int)
    requires
        0 <= a < 60,
        0 <= b < 60,
    ensures
        0 <= spec_pair_idx(a, b) < 3600,
{
    assert(0 <= a * 60 + b < 3600) by (nonlinear_arith)
        requires
            0 <= a < 60,
            0 <= b < 60,
    ;
}

/// The per-id character table an input produces through a codec: zeros,
/// overwritten in input order (a repeated character keeps its last value).
pub open spec fn spec_char_table(con: CharCodec, s: Seq<(char, i64)>) -> Seq<i64>
    decreases s.len(),
{
    if s.len() == 0 {
        Seq::new(60, |i: int| 0i64)
    } else {
        spec_char_table(con, s.drop_last()).update(con.spec_id(s.last().0), s.last().1)
    }
}

/// The dense pair table an input produces through a codec: zeros, overwritten
/// in input order (a repeated pair keeps its last value).
pub open spec fn spec_pair_table(con: CharCodec, s: Seq<(char, char, i64)>) -> Seq<i64>
    decreases s.len(),
{
    if s.len() == 0 {
        Seq::new(3600, |i: int| 0i64)
    } else {
        spec_pair_table(con, s.drop_last()).update(
            spec_pair_idx(con.spec_id(s.last().0), con.spec_id(s.last().1)),
            s.last().2,
        )
    }
}

/// The trigram list an input produces through a codec: translated in order,
/// keeping only trigrams whose consecutive ids differ.
pub open spec fn spec_trigram_list(con: CharCodec, s: Seq<(char, char, char, i64)>) -> Seq<
    TrigramEntry,
>
    decreases s.len(),
{
    if s.len() == 0 {
        Seq::empty()
    } else {
        let rest = spec_trigram_list(con, s.drop_last());
        let (a, b, c, f) = s.last();
        let ta = con.spec_id(a);
        let tb = con.spec_id(b);
        let tc = con.spec_id(c);
        if ta != tb && tb != tc {
            rest.push(TrigramEntry { c0: ta as u8, c1: tb as u8, c2: tc as u8, freq: f })
        } else {
            rest
        }
    }
}

/// A codec extension leaves a character table unchanged.
pub proof fn lemma_char_table_stable(c1: CharCodec, c2: CharCodec, s: Seq<(char, i64)>)
    requires
        c1.wf(),
        c2.wf(),
        c1.chars@.is_prefix_of(c2.chars@),
        forall|k: int| 0 <= k < s.len() ==> c1.knows((#[trigger] s[k]).0),
    ensures
        spec_char_table(c1, s) == spec_char_table(c2, s),
    decreases s.len(),
{
    if s.len() > 0 {
        assert forall|k: int| 0 <= k < s.drop_last().len() implies c1.knows(
            (#[trigger] s.drop_last()[k]).0,
        ) by {
            assert(s.drop_last()[k] == s[k]);
        }
        lemma_char_table_stable(c1, c2, s.drop_last());
        assert(s.last() == s[s.len() - 1]);
        c1.lemma_extend_stable(&c2, s.last().0);
    }
}

/// A codec extension leaves a pair table unchanged.
pub proof fn lemma_pair_table_stable(c1: CharCodec, c2: CharCodec, s: Seq<(char, char, i64)>)
    requires
        c1.wf(),
        c2.wf(),
        c1.chars@.is_prefix_of(c2.chars@),
        forall|k: int|
            0 <= k < s.len() ==> c1.knows((#[trigger] s[k]).0) && c1.knows(s[k].1),
    ensures
        spec_pair_table(c1, s) == spec_pair_table(c2, s),
    decreases s.len(),
{
    if s.len() > 0 {
        assert forall|k: int| 0 <= k < s.drop_last().len() implies c1.knows(
            (#[trigger] s.drop_last()[k]).0,
        ) && c1.knows(s.drop_last()[k].1) by {
            assert(s.drop_last()[k] == s[k]);
        }
        lemma_pair_table_stable(c1, c2, s.drop_last());
        assert(s.last() == s[s.len() - 1]);
        c1.lemma_extend_stable(&c2, s.last().0);
        c1.lemma_extend_stable(&c2, s.last().1);
    }
}

/// A codec extension leaves a trigram list unchanged.
pub proof fn lemma_trigram_list_stable(c1: CharCodec, c2: CharCodec, s: Seq<(char, char, char, i64)>)
    requires
        c1.wf(),
        c2.wf(),
        c1.chars@.is_prefix_of(c2.chars@),
        forall|k: int|
            0 <= k < s.len() ==> c1.knows((#[trigger] s[k]).0) && c1.knows(s[k].1) && c1.knows(
                s[k].2,
            ),
    ensures
        spec_trigram_list(c1, s) == spec_trigram_list(c2, s),
    decreases s.len(),
{
    if s.len() > 0 {
        assert forall|k: int| 0 <= k < s.drop_last().len() implies c1.knows(
            (#[trigger] s.drop_last()[k]).0,
        ) && c1.knows(s.drop_last()[k].1) && c1.knows(s.drop_last()[k].2) by {
            assert(s.drop_last()[k] == s[k]);
        }
        lemma_trigram_list_stable(c1, c2, s.drop_last());
        assert(s.last() == s[s.len() - 1]);
        c1.lemma_extend_stable(&c2, s.last().0);
        c1.lemma_extend_stable(&c2, s.last().1);
        c1.lemma_extend_stable(&c2, s.last().2);
    }
}

/// Seeding more characters after a prefix never shrinks the count.
proof fn lemma_seed_over(prefix: Seq<char>, rest: Seq<char>, bound: int)
    requires
        spec_seeded(Seq::empty(), prefix).len() > bound,
    ensures
        spec_seeded(Seq::empty(), prefix + rest).len() > bound,
{
    lemma_seeded_add(Seq::empty(), prefix, rest);
    crate::codec::lemma_seeded_grows(spec_seeded(Seq::empty(), prefix), rest);
}

/// Frequency tables for one language, all over the codec's id space.
pub struct LanguageData {
    pub language: String,
    pub convert_u8: CharCodec,
    pub characters: Vec<i64>,
    pub bigrams: Vec<i64>,
    pub skipgrams: Vec<i64>,
    pub skipgrams2: Vec<i64>,
    pub skipgrams3: Vec<i64>,
    pub trigrams: Vec<TrigramEntry>,
}

impl LanguageData {
    /// Well-formed: dense tables of the right size, frequencies within range,
    /// trigram ids on distinct consecutive fingers.
    pub open spec fn wf(&self) -> bool {
        &&& self.convert_u8.wf()
        &&& self.characters@.len() == 60
        &&& forall|id: int| 0 <= id < 60 ==> 0 <= (#[trigger] self.characters@[id]) <= FREQ_CAP
        &&& self.bigrams@.len() == 3600
        &&& forall|i: int| 0 <= i < 3600 ==> 0 <= (#[trigger] self.bigrams@[i]) <= FREQ_CAP
        &&& self.skipgrams@.len() == 3600
        &&& forall|i: int| 0 <= i < 3600 ==> 0 <= (#[trigger] self.skipgrams@[i]) <= FREQ_CAP
        &&& self.skipgrams2@.len() == 3600
        &&& forall|i: int| 0 <= i < 3600 ==> 0 <= (#[trigger] self.skipgrams2@[i]) <= FREQ_CAP
        &&& self.skipgrams3@.len() == 3600
        &&& forall|i: int| 0 <= i < 3600 ==> 0 <= (#[trigger] self.skipgrams3@[i]) <= FREQ_CAP
        &&& self.trigrams@.len() <= TRIGRAM_CAP
        &&& forall|k: int|
            0 <= k < self.trigrams@.len() ==> {
                let e = #[trigger] self.trigrams@[k];
                &&& e.c0 < 60
                &&& e.c1 < 60
                &&& e.c2 < 60
                &&& e.c0 != e.c1
                &&& e.c1 != e.c2
                &&& 0 <= e.freq <= FREQ_CAP
            }
    }

    /// Frequency of one character id.
    pub open spec fn spec_char_freq(&self, id: int) -> int {
        self.characters@[id] as int
    }

    /// Frequency of an id pair in one of the four pair tables.
    pub open spec fn spec_pair_freq(table: Seq<i64>, a: int, b: int) -> int {
        table[spec_pair_idx(a, b)] as int
    }
}

/// Build the per-id character frequency table, seeding the codec in input
/// order.
pub fn get_char_data(data: &Vec<(char, i64)>, con: &mut CharCodec) -> (r: Result<
    Vec<i64>,
    DataError,
>)
    requires
        old(con).wf(),
    ensures
        final(con).wf(),
        old(con).chars@.is_prefix_of(final(con).chars@),
        match r {
            Ok(t) => {
                &&& t@ == spec_char_table(*final(con), data@)
                &&& t@.len() == 60
                &&& forall|id: int| 0 <= id < 60 ==> 0 <= (#[trigger] t@[id]) <= FREQ_CAP
                &&& forall|k: int|
                    0 <= k < data@.len() ==> final(con).knows((#[trigger] data@[k]).0)
                &&& final(con).chars@ == spec_seeded(
                    old(con).chars@,
                    spec_chars_of_singles(data@),
                )
            },
            Err(DataError::BadFrequency) => exists|k: int|
                0 <= k < data@.len() && !(0 <= (#[trigger] data@[k]).1 <= FREQ_CAP),
            Err(DataError::TooManyCharacters) => spec_seeded(
                old(con).chars@,
                spec_chars_of_singles(data@),
            ).len() > 60,
            Err(_) => false,
        },
        r is Ok <==> ((forall|k: int|
            0 <= k < data@.len() ==> 0 <= (#[trigger] data@[k]).1 <= FREQ_CAP) && spec_seeded(
            old(con).chars@,
            spec_chars_of_singles(data@),
        ).len() <= 60),
{
    let mut t: Vec<i64> = Vec::new();
    while t.len() < 60
        invariant
            t@.len() <= 60,
            forall|i: int| 0 <= i < t@.len() ==> (#[trigger] t@[i]) == 0,
        decreases 60 - t@.len(),
    {
        t.push(0);
    }
    proof {
        assert(t@ =~= spec_char_table(*con, data@.take(0)));
        assert(spec_chars_of_singles(data@).take(0) =~= Seq::<char>::empty());
    }
    let mut k: usize = 0;
    while k < data.len()
        invariant
            con.wf(),
            old(con).chars@.is_prefix_of(con.chars@),
            k <= data@.len(),
            t@.len() == 60,
            forall|id: int| 0 <= id < 60 ==> 0 <= (#[trigger] t@[id]) <= FREQ_CAP,
            forall|m: int| 0 <= m < k ==> con.knows((#[trigger] data@[m]).0),
            forall|m: int| 0 <= m < k ==> 0 <= (#[trigger] data@[m]).1 <= FREQ_CAP,
            t@ == spec_char_table(*con, data@.take(k as int)),
            con.chars@ == spec_seeded(
                old(con).chars@,
                spec_chars_of_singles(data@).take(k as int),
            ),
        decreases data@.len() - k,
    {
        proof {
            assert(spec_chars_of_singles(data@).take(k + 1).drop_last() =~= spec_chars_of_singles(
                data@,
            ).take(k as int));
            assert(spec_chars_of_singles(data@).take(k + 1).last() == data@[k as int].0);
        }
        let (c, f) = data[k];
        if f < 0 || f > FREQ_CAP {
            return Err(DataError::BadFrequency);
        }
        let ghost pre = *con;
        match con.insert(c) {
            Ok(id) => {
                proof {
                    CharCodec::lemma_prefix_trans(old(con).chars@, pre.chars@, con.chars@);
                    assert forall|m: int| 0 <= m < k + 1 implies con.knows(
                        (#[trigger] data@[m]).0,
                    ) by {
                        if m < k {
                            pre.lemma_extend_stable(con, data@[m].0);
                        }
                    }
                    assert forall|m: int| 0 <= m < data@.take(k as int).len() implies pre.knows(
                        (#[trigger] data@.take(k as int)[m]).0,
                    ) by {
                        assert(data@.take(k as int)[m] == data@[m]);
                    }
                    lemma_char_table_stable(pre, *con, data@.take(k as int));
                }
                t.set(id as usize, f);
                proof {
                    assert(data@.take(k + 1).drop_last() =~= data@.take(k as int));
                    assert(data@.take(k + 1).last() == data@[k as int]);
                    assert(t@ =~= spec_char_table(*con, data@.take(k + 1)));
                }
            },
            Err(_) => {
                proof {
                    assert(con.chars@.len() == 60 && !pre.knows(c));
                    assert(spec_seeded(old(con).chars@, spec_chars_of_singles(data@).take(k + 1))
                        == con.chars@.push(c));
                    lemma_seeded_prefix(old(con).chars@, spec_chars_of_singles(data@), k + 1);
                }
                return Err(DataError::TooManyCharacters);
            },
        }
        k += 1;
    }
    proof {
        assert(data@.take(data@.len() as int) =~= data@);
        assert(spec_chars_of_singles(data@).take(data@.len() as int) =~= spec_chars_of_singles(
            data@,
        ));
    }
    Ok(t)
}

/// Build a dense pair table, inserting unseen characters into the codec.
pub fn get_bigram_data(data: &Vec<(char, char, i64)>, con: &mut CharCodec) -> (r: Result<
    Vec<i64>,
    DataError,
>)
    requires
        old(con).wf(),
    ensures
        final(con).wf(),
        old(con).chars@.is_prefix_of(final(con).chars@),
        match r {
            Ok(t) => {
                &&& t@ == spec_pair_table(*final(con), data@)
                &&& t@.len() == 3600
                &&& forall|i: int| 0 <= i < 3600 ==> 0 <= (#[trigger] t@[i]) <= FREQ_CAP
                &&& forall|k: int|
                    0 <= k < data@.len() ==> final(con).knows((#[trigger] data@[k]).0)
                        && final(con).knows(data@[k].1)
                &&& final(con).chars@ == spec_seeded(old(con).chars@, spec_chars_of_pairs(data@))
            },
            Err(DataError::BadFrequency) => exists|k: int|
                0 <= k < data@.len() && !(0 <= (#[trigger] data@[k]).2 <= FREQ_CAP),
            Err(DataError::TooManyCharacters) => spec_seeded(
                old(con).chars@,
                spec_chars_of_pairs(data@),
            ).len() > 60,
            Err(_) => false,
        },
        r is Ok <==> ((forall|k: int|
            0 <= k < data@.len() ==> 0 <= (#[trigger] data@[k]).2 <= FREQ_CAP) && spec_seeded(
            old(con).chars@,
            spec_chars_of_pairs(data@),
        ).len() <= 60),
{
    let mut t: Vec<i64> = Vec::new();
    while t.len() < 3600
        invariant
            t@.len() <= 3600,
            forall|i: int| 0 <= i < t@.len() ==> (#[trigger] t@[i]) == 0,
        decreases 3600 - t@.len(),
    {
        t.push(0);
    }
    proof {
        assert(t@ =~= spec_pair_table(*con, data@.take(0)));
        assert(spec_chars_of_pairs(data@).take(0) =~= Seq::<char>::empty());
    }
    let mut k: usize = 0;
    while k < data.len()
        invariant
            con.wf(),
            old(con).chars@.is_prefix_of(con.chars@),
            k <= data@.len(),
            t@.len() == 3600,
            forall|i: int| 0 <= i < 3600 ==> 0 <= (#[trigger] t@[i]) <= FREQ_CAP,
            forall|m: int|
                0 <= m < k ==> con.knows((#[trigger] data@[m]).0) && con.knows(data@[m].1),
            forall|m: int| 0 <= m < k ==> 0 <= (#[trigger] data@[m]).2 <= FREQ_CAP,
            t@ == spec_pair_table(*con, data@.take(k as int)),
            con.chars@ == spec_seeded(
                old(con).chars@,
                spec_chars_of_pairs(data@).take(2 * k as int),
            ),
        decreases data@.len() - k,
    {
        proof {
            assert(spec_chars_of_pairs(data@).take(2 * k + 1).drop_last() =~= spec_chars_of_pairs(
                data@,
            ).take(2 * k as int));
            assert(spec_chars_of_pairs(data@).take(2 * k + 1).last() == data@[k as int].0);
            assert(spec_chars_of_pairs(data@).take(2 * k + 2).drop_last() =~= spec_chars_of_pairs(
                data@,
            ).take(2 * k + 1));
            assert(spec_chars_of_pairs(data@).take(2 * k + 2).last() == data@[k as int].1);
        }
        let (a, b, f) = data[k];
        if f < 0 || f > FREQ_CAP {
            return Err(DataError::BadFrequency);
        }
        let ghost pre = *con;
        let ia = match con.insert(a) {
            Ok(id) => id,
            Err(_) => {
                proof {
                    assert(spec_seeded(
                        old(con).chars@,
                        spec_chars_of_pairs(data@).take(2 * k + 1),
                    ) == con.chars@.push(a));
                    lemma_seeded_prefix(old(con).chars@, spec_chars_of_pairs(data@), 2 * k + 1);
                }
                return Err(DataError::TooManyCharacters);
            },
        };
        let ghost mid = *con;
        proof {
            assert(mid.chars@ == spec_seeded(
                old(con).chars@,
                spec_chars_of_pairs(data@).take(2 * k + 1),
            ));
        }
        let ib = match con.insert(b) {
            Ok(id) => id,
            Err(_) => {
                proof {
                    CharCodec::lemma_prefix_trans(old(con).chars@, pre.chars@, con.chars@);
                    assert(spec_seeded(
                        old(con).chars@,
                        spec_chars_of_pairs(data@).take(2 * k + 2),
                    ) == con.chars@.push(b));
                    lemma_seeded_prefix(old(con).chars@, spec_chars_of_pairs(data@), 2 * k + 2);
                }
                return Err(DataError::TooManyCharacters);
            },
        };
        proof {
            CharCodec::lemma_prefix_trans(pre.chars@, mid.chars@, con.chars@);
            CharCodec::lemma_prefix_trans(old(con).chars@, pre.chars@, con.chars@);
            mid.lemma_extend_stable(con, a);
            assert(con.knows(a) && con.spec_id(a) == ia as int);
            assert(con.knows(b) && con.spec_id(b) == ib as int);
            assert forall|m: int| 0 <= m < k + 1 implies con.knows((#[trigger] data@[m]).0)
                && con.knows(data@[m].1) by {
                if m < k {
                    pre.lemma_extend_stable(con, data@[m].0);
                    pre.lemma_extend_stable(con, data@[m].1);
                }
            }
            assert forall|m: int| 0 <= m < data@.take(k as int).len() implies pre.knows(
                (#[trigger] data@.take(k as int)[m]).0,
            ) && pre.knows(data@.take(k as int)[m].1) by {
                assert(data@.take(k as int)[m] == data@[m]);
            }
            lemma_pair_table_stable(pre, *con, data@.take(k as int));
            lemma_pair_idx_bound(ia as int, ib as int);
        }
        let idx: usize = (ia as usize) * 60 + (ib as usize);
        t.set(idx, f);
        proof {
            assert(2 * ((k + 1) as int) == 2 * k + 2);
            assert(data@.take(k + 1).drop_last() =~= data@.take(k as int));
            assert(data@.take(k + 1).last() == data@[k as int]);
            assert(t@ =~= spec_pair_table(*con, data@.take(k + 1)));
        }
        k += 1;
    }
    proof {
        assert(data@.take(data@.len() as int) =~= data@);
        assert(spec_chars_of_pairs(data@).take(2 * data@.len() as int) =~= spec_chars_of_pairs(
            data@,
        ));
    }
    Ok(t)
}

/// Build the ordered trigram list, inserting unseen characters into the codec
/// and dropping trigrams whose consecutive ids repeat.
pub fn get_trigram_data(data: &Vec<(char, char, char, i64)>, con: &mut CharCodec) -> (r: Result<
    Vec<TrigramEntry>,
    DataError,
>)
    requires
        old(con).wf(),
        data@.len() <= TRIGRAM_CAP,
    ensures
        final(con).wf(),
        old(con).chars@.is_prefix_of(final(con).chars@),
        match r {
            Ok(v) => {
                &&& v@ == spec_trigram_list(*final(con), data@)
                &&& v@.len() <= data@.len()
                &&& forall|j: int|
                    0 <= j < v@.len() ==> {
                        let e = #[trigger] v@[j];
                        &&& e.c0 < 60
                        &&& e.c1 < 60
                        &&& e.c2 < 60
                        &&& e.c0 != e.c1
                        &&& e.c1 != e.c2
                        &&& 0 <= e.freq <= FREQ_CAP
                    }
                &&& final(con).chars@ == spec_seeded(
                    old(con).chars@,
                    spec_chars_of_triples(data@),
                )
            },
            Err(DataError::BadFrequency) => exists|k: int|
                0 <= k < data@.len() && !(0 <= (#[trigger] data@[k]).3 <= FREQ_CAP),
            Err(DataError::TooManyCharacters) => spec_seeded(
                old(con).chars@,
                spec_chars_of_triples(data@),
            ).len() > 60,
            Err(_) => false,
        },
        r is Ok <==> ((forall|k: int|
            0 <= k < data@.len() ==> 0 <= (#[trigger] data@[k]).3 <= FREQ_CAP) && spec_seeded(
            old(con).chars@,
            spec_chars_of_triples(data@),
        ).len() <= 60),
{
    proof {
        assert(spec_chars_of_triples(data@).take(0) =~= Seq::<char>::empty());
    }
    let mut v: Vec<TrigramEntry> = Vec::new();
    let mut k: usize = 0;
    while k < data.len()
        invariant
            con.wf(),
            old(con).chars@.is_prefix_of(con.chars@),
            k <= data@.len(),
            v@.len() <= k,
            forall|m: int| 0 <= m < k ==> 0 <= (#[trigger] data@[m]).3 <= FREQ_CAP,
            con.chars@ == spec_seeded(
                old(con).chars@,
                spec_chars_of_triples(data@).take(3 * k as int),
            ),
            forall|m: int|
                0 <= m < k ==> con.knows((#[trigger] data@[m]).0) && con.knows(data@[m].1)
                    && con.knows(data@[m].2),
            v@ == spec_trigram_list(*con, data@.take(k as int)),
            forall|j: int|
                0 <= j < v@.len() ==> {
                    let e = #[trigger] v@[j];
                    &&& e.c0 < 60
                    &&& e.c1 < 60
                    &&& e.c2 < 60
                    &&& e.c0 != e.c1
                    &&& e.c1 != e.c2
                    &&& 0 <= e.freq <= FREQ_CAP
                },
        decreases data@.len() - k,
    {
        proof {
            assert(spec_chars_of_triples(data@).take(3 * k + 1).drop_last()
                =~= spec_chars_of_triples(data@).take(3 * k as int));
            assert(spec_chars_of_triples(data@).take(3 * k + 1).last() == data@[k as int].0);
            assert(spec_chars_of_triples(data@).take(3 * k + 2).drop_last()
                =~= spec_chars_of_triples(data@).take(3 * k + 1));
            assert(spec_chars_of_triples(data@).take(3 * k + 2).last() == data@[k as int].1);
            assert(spec_chars_of_triples(data@).take(3 * k + 3).drop_last()
                =~= spec_chars_of_triples(data@).take(3 * k + 2));
            assert(spec_chars_of_triples(data@).take(3 * k + 3).last() == data@[k as int].2);
        }
        let (a, b, c, f) = data[k];
        if f < 0 || f > FREQ_CAP {
            return Err(DataError::BadFrequency);
        }
        let ghost pre = *con;
        let ia = match con.insert(a) {
            Ok(id) => id,
            Err(_) => {
                proof {
                    assert(spec_seeded(
                        old(con).chars@,
                        spec_chars_of_triples(data@).take(3 * k + 1),
                    ) == con.chars@.push(a));
                    lemma_seeded_prefix(old(con).chars@, spec_chars_of_triples(data@), 3 * k + 1);
                }
                return Err(DataError::TooManyCharacters);
            },
        };
        let ghost m1 = *con;
        proof {
            assert(m1.chars@ == spec_seeded(
                old(con).chars@,
                spec_chars_of_triples(data@).take(3 * k + 1),
            ));
        }
        let ib = match con.insert(b) {
            Ok(id) => id,
            Err(_) => {
                proof {
                    CharCodec::lemma_prefix_trans(old(con).chars@, pre.chars@, con.chars@);
                    assert(spec_seeded(
                        old(con).chars@,
                        spec_chars_of_triples(data@).take(3 * k + 2),
                    ) == con.chars@.push(b));
                    lemma_seeded_prefix(old(con).chars@, spec_chars_of_triples(data@), 3 * k + 2);
                }
                return Err(DataError::TooManyCharacters);
            },
        };
        let ghost m2 = *con;
        proof {
            assert(m2.chars@ == spec_seeded(
                old(con).chars@,
                spec_chars_of_triples(data@).take(3 * k + 2),
            ));
        }
        let ic = match con.insert(c) {
            Ok(id) => id,
            Err(_) => {
                proof {
                    CharCodec::lemma_prefix_trans(pre.chars@, m1.chars@, con.chars@);
                    CharCodec::lemma_prefix_trans(old(con).chars@, pre.chars@, con.chars@);
                    assert(spec_seeded(
                        old(con).chars@,
                        spec_chars_of_triples(data@).take(3 * k + 3),
                    ) == con.chars@.push(c));
                    lemma_seeded_prefix(old(con).chars@, spec_chars_of_triples(data@), 3 * k + 3);
                }
                return Err(DataError::TooManyCharacters);
            },
        };
        proof {
            assert(3 * ((k + 1) as int) == 3 * k + 3);
            CharCodec::lemma_prefix_trans(m1.chars@, m2.chars@, con.chars@);
            CharCodec::lemma_prefix_trans(pre.chars@, m1.chars@, con.chars@);
            CharCodec::lemma_prefix_trans(old(con).chars@, pre.chars@, con.chars@);
            m1.lemma_extend_stable(con, a);
            m2.lemma_extend_stable(con, b);
            assert(con.knows(a) && con.spec_id(a) == ia as int);
            assert(con.knows(b) && con.spec_id(b) == ib as int);
            assert(con.knows(c) && con.spec_id(c) == ic as int);
            assert forall|m: int| 0 <= m < k + 1 implies con.knows((#[trigger] data@[m]).0)
                && con.knows(data@[m].1) && con.knows(data@[m].2) by {
                if m < k {
                    pre.lemma_extend_stable(con, data@[m].0);
                    pre.lemma_extend_stable(con, data@[m].1);
                    pre.lemma_extend_stable(con, data@[m].2);
                }
            }
            assert forall|m: int| 0 <= m < data@.take(k as int).len() implies pre.knows(
                (#[trigger] data@.take(k as int)[m]).0,
            ) && pre.knows(data@.take(k as int)[m].1) && pre.knows(data@.take(k as int)[m].2) by {
                assert(data@.take(k as int)[m] == data@[m]);
            }
            lemma_trigram_list_stable(pre, *con, data@.take(k as int));
            assert(data@.take(k + 1).drop_last() =~= data@.take(k as int));
            assert(data@.take(k + 1).last() == data@[k as int]);
        }
        if ia != ib && ib != ic {
            v.push(TrigramEntry { c0: ia, c1: ib, c2: ic, freq: f });
        }
        k += 1;
    }
    proof {
        assert(data@.take(data@.len() as int) =~= data@);
        assert(spec_chars_of_triples(data@).take(3 * data@.len() as int) =~= spec_chars_of_triples(
            data@,
        ));
    }
    Ok(v)
}

impl LanguageData {
    /// Build a whole language model: the character table seeds the codec,
    /// then the four pair tables, then the trigram list, all inserting
    /// characters in iteration order.
    pub fn new(
        language: String,
        characters: &Vec<(char, i64)>,
        bigrams: &Vec<(char, char, i64)>,
        skipgrams: &Vec<(char, char, i64)>,
        skipgrams2: &Vec<(char, char, i64)>,
        skipgrams3: &Vec<(char, char, i64)>,
        trigrams: &Vec<(char, char, char, i64)>,
    ) -> (r: Result<LanguageData, DataError>)
        ensures
            match r {
                Ok(d) => {
                    &&& d.wf()
                    &&& d.characters@ == spec_char_table(d.convert_u8, characters@)
                    &&& d.bigrams@ == spec_pair_table(d.convert_u8, bigrams@)
                    &&& d.skipgrams@ == spec_pair_table(d.convert_u8, skipgrams@)
                    &&& d.skipgrams2@ == spec_pair_table(d.convert_u8, skipgrams2@)
                    &&& d.skipgrams3@ == spec_pair_table(d.convert_u8, skipgrams3@)
                    &&& d.trigrams@ == spec_trigram_list(d.convert_u8, trigrams@)
                    &&& forall|k: int|
                        0 <= k < characters@.len() ==> d.convert_u8.knows(
                            (#[trigger] characters@[k]).0,
                        )
                },
                Err(e) => {
                    &&& e != DataError::TooFewCharacters
                    &&& (e == DataError::TooManyTrigrams <==> trigrams@.len() > TRIGRAM_CAP)
                    &&& (e == DataError::TooManyCharacters ==> spec_seeded(
                        Seq::empty(),
                        spec_all_corpus_chars(
                            characters@,
                            bigrams@,
                            skipgrams@,
                            skipgrams2@,
                            skipgrams3@,
                            trigrams@,
                        ),
                    ).len() > 60)
                    &&& (e == DataError::BadFrequency ==> (exists|k: int|
                        0 <= k < characters@.len() && !(0 <= (#[trigger] characters@[k]).1
                            <= FREQ_CAP)) || (exists|k: int|
                        0 <= k < bigrams@.len() && !(0 <= (#[trigger] bigrams@[k]).2 <= FREQ_CAP))
                        || (exists|k: int|
                        0 <= k < skipgrams@.len() && !(0 <= (#[trigger] skipgrams@[k]).2
                            <= FREQ_CAP)) || (exists|k: int|
                        0 <= k < skipgrams2@.len() && !(0 <= (#[trigger] skipgrams2@[k]).2
                            <= FREQ_CAP)) || (exists|k: int|
                        0 <= k < skipgrams3@.len() && !(0 <= (#[trigger] skipgrams3@[k]).2
                            <= FREQ_CAP)) || (exists|k: int|
                        0 <= k < trigrams@.len() && !(0 <= (#[trigger] trigrams@[k]).3
                            <= FREQ_CAP)))
                },
            },
            r is Ok <==> (trigrams@.len() <= TRIGRAM_CAP && (forall|k: int|
                0 <= k < characters@.len() ==> 0 <= (#[trigger] characters@[k]).1 <= FREQ_CAP) && (
            forall|k: int| 0 <= k < bigrams@.len() ==> 0 <= (#[trigger] bigrams@[k]).2 <= FREQ_CAP)
                && (forall|k: int|
                0 <= k < skipgrams@.len() ==> 0 <= (#[trigger] skipgrams@[k]).2 <= FREQ_CAP) && (
            forall|k: int|
                0 <= k < skipgrams2@.len() ==> 0 <= (#[trigger] skipgrams2@[k]).2 <= FREQ_CAP) && (
            forall|k: int|
                0 <= k < skipgrams3@.len() ==> 0 <= (#[trigger] skipgrams3@[k]).2 <= FREQ_CAP) && (
            forall|k: int|
                0 <= k < trigrams@.len() ==> 0 <= (#[trigger] trigrams@[k]).3 <= FREQ_CAP)
                && spec_seeded(
                Seq::empty(),
                spec_all_corpus_chars(
                    characters@,
                    bigrams@,
                    skipgrams@,
                    skipgrams2@,
                    skipgrams3@,
                    trigrams@,
                ),
            ).len() <= 60),
    {
        let ghost p1 = spec_chars_of_singles(characters@);
        let ghost p2 = p1 + spec_chars_of_pairs(bigrams@);
        let ghost p3 = p2 + spec_chars_of_pairs(skipgrams@);
        let ghost p4 = p3 + spec_chars_of_pairs(skipgrams2@);
        let ghost p5 = p4 + spec_chars_of_pairs(skipgrams3@);
        let ghost all = p5 + spec_chars_of_triples(trigrams@);
        proof {
            assert(all == spec_all_corpus_chars(
                characters@,
                bigrams@,
                skipgrams@,
                skipgrams2@,
                skipgrams3@,
                trigrams@,
            ));
        }
        if trigrams.len() > TRIGRAM_CAP {
            return Err(DataError::TooManyTrigrams);
        }
        let mut con = CharCodec::new();
        let ghost c0 = con;
        proof {
            assert(c0.chars@ =~= Seq::<char>::empty());
        }
        let char_table = match get_char_data(characters, &mut con) {
            Ok(t) => t,
            Err(e) => {
                proof {
                    if e == DataError::TooManyCharacters {
                        assert(p1 =~= p1 + Seq::<char>::empty());
                        assert(all =~= p1 + (spec_chars_of_pairs(bigrams@) + spec_chars_of_pairs(
                            skipgrams@,
                        ) + spec_chars_of_pairs(skipgrams2@) + spec_chars_of_pairs(skipgrams3@)
                            + spec_chars_of_triples(trigrams@)));
                        lemma_seed_over(
                            p1,
                            spec_chars_of_pairs(bigrams@) + spec_chars_of_pairs(skipgrams@)
                                + spec_chars_of_pairs(skipgrams2@) + spec_chars_of_pairs(
                                skipgrams3@,
                            ) + spec_chars_of_triples(trigrams@),
                            60,
                        );
                    }
                }
                return Err(e);
            },
        };
        let ghost c1 = con;
        proof {
            assert(c1.chars@ == spec_seeded(Seq::empty(), p1));
        }
        let big_table = match get_bigram_data(bigrams, &mut con) {
            Ok(t) => t,
            Err(e) => {
                proof {
                    if e == DataError::TooManyCharacters {
                        lemma_seeded_add(Seq::empty(), p1, spec_chars_of_pairs(bigrams@));
                        assert(all =~= p2 + (spec_chars_of_pairs(skipgrams@)
                            + spec_chars_of_pairs(skipgrams2@) + spec_chars_of_pairs(skipgrams3@)
                            + spec_chars_of_triples(trigrams@)));
                        lemma_seed_over(
                            p2,
                            spec_chars_of_pairs(skipgrams@) + spec_chars_of_pairs(skipgrams2@)
                                + spec_chars_of_pairs(skipgrams3@) + spec_chars_of_triples(
                                trigrams@,
                            ),
                            60,
                        );
                    }
                }
                return Err(e);
            },
        };
        let ghost c2 = con;
        proof {
            lemma_seeded_add(Seq::empty(), p1, spec_chars_of_pairs(bigrams@));
            assert(c2.chars@ == spec_seeded(Seq::empty(), p2));
        }
        let skip_table = match get_bigram_data(skipgrams, &mut con) {
            Ok(t) => t,
            Err(e) => {
                proof {
                    if e == DataError::TooManyCharacters {
                        lemma_seeded_add(Seq::empty(), p2, spec_chars_of_pairs(skipgrams@));
                        assert(all =~= p3 + (spec_chars_of_pairs(skipgrams2@)
                            + spec_chars_of_pairs(skipgrams3@) + spec_chars_of_triples(
                            trigrams@,
                        )));
                        lemma_seed_over(
                            p3,
                            spec_chars_of_pairs(skipgrams2@) + spec_chars_of_pairs(skipgrams3@)
                                + spec_chars_of_triples(trigrams@),
                            60,
                        );
                    }
                }
                return Err(e);
            },
        };
        let ghost c3 = con;
        proof {
            lemma_seeded_add(Seq::empty(), p2, spec_chars_of_pairs(skipgrams@));
            assert(c3.chars@ == spec_seeded(Seq::empty(), p3));
        }
        let skip2_table = match get_bigram_data(skipgrams2, &mut con) {
            Ok(t) => t,
            Err(e) => {
                proof {
                    if e == DataError::TooManyCharacters {
                        lemma_seeded_add(Seq::empty(), p3, spec_chars_of_pairs(skipgrams2@));
                        assert(all =~= p4 + (spec_chars_of_pairs(skipgrams3@)
                            + spec_chars_of_triples(trigrams@)));
                        lemma_seed_over(
                            p4,
                            spec_chars_of_pairs(skipgrams3@) + spec_chars_of_triples(trigrams@),
                            60,
                        );
                    }
                }
                return Err(e);
            },
        };
        let ghost c4 = con;
        proof {
            lemma_seeded_add(Seq::empty(), p3, spec_chars_of_pairs(skipgrams2@));
            assert(c4.chars@ == spec_seeded(Seq::empty(), p4));
        }
        let skip3_table = match get_bigram_data(skipgrams3, &mut con) {
            Ok(t) => t,
            Err(e) => {
                proof {
                    if e == DataError::TooManyCharacters {
                        lemma_seeded_add(Seq::empty(), p4, spec_chars_of_pairs(skipgrams3@));
                        assert(all =~= p5 + spec_chars_of_triples(trigrams@));
                        lemma_seed_over(p5, spec_chars_of_triples(trigrams@), 60);
                    }
                }
                return Err(e);
            },
        };
        let ghost c5 = con;
        proof {
            lemma_seeded_add(Seq::empty(), p4, spec_chars_of_pairs(skipgrams3@));
            assert(c5.chars@ == spec_seeded(Seq::empty(), p5));
        }
        let trigram_list = match get_trigram_data(trigrams, &mut con) {
            Ok(v) => v,
            Err(e) => {
                proof {
                    if e == DataError::TooManyCharacters {
                        lemma_seeded_add(Seq::empty(), p5, spec_chars_of_triples(trigrams@));
                        assert(all =~= p5 + spec_chars_of_triples(trigrams@));
                    }
                }
                return Err(e);
            },
        };
        proof {
            lemma_seeded_add(Seq::empty(), p5, spec_chars_of_triples(trigrams@));
            assert(all =~= p5 + spec_chars_of_triples(trigrams@));
            assert(con.chars@ == spec_seeded(Seq::empty(), all));
        }
        proof {
            CharCodec::lemma_prefix_trans(c1.chars@, c2.chars@, c3.chars@);
            CharCodec::lemma_prefix_trans(c1.chars@, c3.chars@, c4.chars@);
            CharCodec::lemma_prefix_trans(c1.chars@, c4.chars@, c5.chars@);
            CharCodec::lemma_prefix_trans(c1.chars@, c5.chars@, con.chars@);
            CharCodec::lemma_prefix_trans(c2.chars@, c3.chars@, c4.chars@);
            CharCodec::lemma_prefix_trans(c2.chars@, c4.chars@, c5.chars@);
            CharCodec::lemma_prefix_trans(c2.chars@, c5.chars@, con.chars@);
            CharCodec::lemma_prefix_trans(c3.chars@, c4.chars@, c5.chars@);
            CharCodec::lemma_prefix_trans(c3.chars@, c5.chars@, con.chars@);
            CharCodec::lemma_prefix_trans(c4.chars@, c5.chars@, con.chars@);
            lemma_char_table_stable(c1, con, characters@);
            lemma_pair_table_stable(c2, con, bigrams@);
            lemma_pair_table_stable(c3, con, skipgrams@);
            lemma_pair_table_stable(c4, con, skipgrams2@);
            lemma_pair_table_stable(c5, con, skipgrams3@);
            assert forall|k: int| 0 <= k < characters@.len() implies con.knows(
                (#[trigger] characters@[k]).0,
            ) by {
                c1.lemma_extend_stable(&con, characters@[k].0);
            }
            assert forall|k: int| 0 <= k < bigrams@.len() implies c2.knows(
                (#[trigger] bigrams@[k]).0,
            ) && c2.knows(bigrams@[k].1) by {}
        }
        Ok(
            LanguageData {
                language,
                convert_u8: con,
                characters: char_table,
                bigrams: big_table,
                skipgrams: skip_table,
                skipgrams2: skip2_table,
                skipgrams3: skip3_table,
                trigrams: trigram_list,
            },
        )
    }

    /// Frequency of one character id.
    pub fn char_freq(&self, id: u8) -> (f: i64)
        requires
            self.wf(),
            id < 60,
        ensures
            f == self.spec_char_freq(id as int),
            0 <= f <= FREQ_CAP,
    {
        self.characters[id as usize]
    }
}

} // verus!
