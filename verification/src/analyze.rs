//! The layout registry: named layouts of one language, ranked by score.
//!
//! Layout files are read and written by the caller; the registry works on
//! plain (name, text) pairs. Loading parses and scores each text, skipping
//! malformed ones, and keeps the list sorted by score, best first. Saving
//! picks a placeholder name from the right half of the home row when none is
//! given, suffixed with the smallest positive number that avoids a collision.

use vstd::prelude::*;

use crate::generate::LayoutGeneration;
use crate::layout::FastLayout;
use crate::layout::spec_parsed_matrix;
use crate::layout::spec_rendered;
use crate::layout::spec_rev_ok;
use crate::layout::strip_spaces;
use crate::scorer::spec_score;

verus! {

/// Entries are well-formed layouts whose cached score is their real score.
pub open spec fn entries_ok(g: LayoutGeneration, s: Seq<(Vec<char>, FastLayout)>) -> bool {
    forall|k: int|
        0 <= k < s.len() ==> (#[trigger] s[k]).1.wf() && s[k].1.score == spec_score(
            g,
            s[k].1.matrix@,
            s[k].1.pos_of@,
        )
}

/// Entries are sorted by score, best first.
pub open spec fn entries_sorted(s: Seq<(Vec<char>, FastLayout)>) -> bool {
    forall|i: int, j: int| 0 <= i < j < s.len() ==> s[i].1.score >= s[j].1.score
}

/// Whether a name is already taken.
pub open spec fn spec_taken(s: Seq<(Vec<char>, FastLayout)>, name: Seq<char>) -> bool {
    exists|k: int| 0 <= k < s.len() && (#[trigger] s[k]).0@ == name
}

/// Whether the registry holds an entry under a name with a given key matrix.
pub open spec fn spec_has_entry(
    s: Seq<(Vec<char>, FastLayout)>,
    name: Seq<char>,
    m: Seq<u8>,
) -> bool {
    exists|k: int| 0 <= k < s.len() && (#[trigger] s[k]).0@ == name && s[k].1.matrix@ == m
}

/// Whether every key id of a matrix has a character in the codec.
pub open spec fn spec_decodable(con: crate::codec::CharCodec, m: Seq<u8>) -> bool {
    forall|p: int| 0 <= p < 30 ==> ((#[trigger] m[p]) as nat) < con.spec_len()
}

/// The decimal digit character of a value below ten.
pub open spec fn spec_digit_char(d: int) -> char {
    if d == 0 { '0' }
    else if d == 1 { '1' }
    else if d == 2 { '2' }
    else if d == 3 { '3' }
    else if d == 4 { '4' }
    else if d == 5 { '5' }
    else if d == 6 { '6' }
    else if d == 7 { '7' }
    else if d == 8 { '8' }
    else { '9' }
}

/// The decimal digits of a number, most significant first.
pub open spec fn spec_digits(n: int) -> Seq<char>
    decreases n,
{
    if n <= 9 {
        seq![spec_digit_char(n)]
    } else {
        spec_digits(n / 10) + seq![spec_digit_char(n % 10)]
    }
}

/// The decimal digit character of a value below ten.
pub fn digit_char(d: usize) -> (r: char)
    requires
        d < 10,
    ensures
        r == spec_digit_char(d as int),
{
    if d == 0 { '0' }
    else if d == 1 { '1' }
    else if d == 2 { '2' }
    else if d == 3 { '3' }
    else if d == 4 { '4' }
    else if d == 5 { '5' }
    else if d == 6 { '6' }
    else if d == 7 { '7' }
    else if d == 8 { '8' }
    else { '9' }
}

/// The decimal digits of a number, most significant first.
pub fn digits_of(n: usize) -> (r: Vec<char>)
    ensures
        r@ == spec_digits(n as int),
    decreases n,
{
    if n <= 9 {
        let mut v: Vec<char> = Vec::new();
        v.push(digit_char(n));
        proof {
            assert(v@ =~= spec_digits(n as int));
        }
        v
    } else {
        let mut v = digits_of(n / 10);
        v.push(digit_char(n % 10));
        proof {
            assert(v@ =~= spec_digits(n as int));
        }
        v
    }
}

/// Whether two character sequences are equal.
pub fn chars_eq(a: &Vec<char>, b: &Vec<char>) -> (r: bool)
    ensures
        r <==> a@ == b@,
{
    if a.len() != b.len() {
        proof {
            assert(a@.len() != b@.len());
        }
        return false;
    }
    let mut i: usize = 0;
    while i < a.len()
        invariant
            a@.len() == b@.len(),
            i <= a@.len(),
            forall|k: int| 0 <= k < i ==> a@[k] == b@[k],
        decreases a@.len() - i,
    {
        if a[i] != b[i] {
            return false;
        }
        i += 1;
    }
    proof {
        assert(a@ =~= b@);
    }
    true
}

/// Whether a file name ends in the layout extension `.kb`.
pub fn is_kb_file(name: &Vec<char>) -> (r: bool)
    ensures
        r <==> (name@.len() >= 3 && name@[name@.len() - 3] == '.' && name@[name@.len() - 2] == 'k'
            && name@[name@.len() - 1] == 'b'),
{
    if name.len() < 3 {
        return false;
    }
    let n = name.len();
    name[n - 3] == '.' && name[n - 2] == 'k' && name[n - 1] == 'b'
}

/// Whether a layout text parses through a codec: thirty keys once the
/// whitespace is gone, all of them known, none repeated.
pub open spec fn spec_parseable(con: crate::codec::CharCodec, text: Seq<char>) -> bool {
    &&& strip_spaces(text).len() >= 30
    &&& forall|k: int| 0 <= k < 30 ==> con.knows(#[trigger] strip_spaces(text)[k])
    &&& forall|k: int, t: int| 0 <= k < t < 30 ==> strip_spaces(text)[k] != strip_spaces(text)[t]
}

/// How many of the given texts parse.
pub open spec fn spec_parseable_count(
    con: crate::codec::CharCodec,
    files: Seq<(Vec<char>, Vec<char>)>,
) -> int
    decreases files.len(),
{
    if files.len() == 0 {
        0
    } else {
        spec_parseable_count(con, files.drop_last()) + if spec_parseable(con, files.last().1@) {
            1int
        } else {
            0
        }
    }
}

/// The registry of named layouts of one language, ranked by score.
pub struct LayoutAnalysis {
    pub language: String,
    pub generation: LayoutGeneration,
    pub layouts: Vec<(Vec<char>, FastLayout)>,
}

impl LayoutAnalysis {
    /// Well-formed: a sound scorer, sound scored entries, best first.
    pub open spec fn wf(&self) -> bool {
        &&& self.generation.wf()
        &&& entries_ok(self.generation, self.layouts@)
        &&& entries_sorted(self.layouts@)
    }

    /// Insert a scored layout, keeping the order.
    fn insert_entry(&mut self, name: Vec<char>, l: FastLayout)
        requires
            old(self).wf(),
            l.wf(),
            l.score == spec_score(old(self).generation, l.matrix@, l.pos_of@),
        ensures
            final(self).wf(),
            final(self).generation == old(self).generation,
            final(self).layouts@.len() == old(self).layouts@.len() + 1,
            spec_taken(final(self).layouts@, name@),
            forall|n: Seq<char>|
                spec_taken(old(self).layouts@, n) ==> spec_taken(final(self).layouts@, n),
            exists|k: int|
                0 <= k < final(self).layouts@.len() && (#[trigger] final(self).layouts@[k]).0@
                    == name@ && final(self).layouts@[k].1 == l,
            forall|n: Seq<char>, m: Seq<u8>|
                spec_has_entry(old(self).layouts@, n, m) ==> spec_has_entry(
                    final(self).layouts@,
                    n,
                    m,
                ),
    {
        let mut j: usize = 0;
        while j < self.layouts.len() && self.layouts[j].1.score >= l.score
            invariant
                j <= self.layouts@.len(),
                forall|t: int| 0 <= t < j ==> (#[trigger] self.layouts@[t]).1.score >= l.score,
                entries_sorted(self.layouts@),
            decreases self.layouts@.len() - j,
        {
            j += 1;
        }
        let ghost pre = self.layouts@;
        self.layouts.insert(j, (name, l));
        proof {
            pre.insert_ensures(j as int, (name, l));
            assert forall|i: int, t: int|
                0 <= i < t < self.layouts@.len() implies self.layouts@[i].1.score
                >= self.layouts@[t].1.score by {
                if t < j {
                    assert(self.layouts@[i] == pre[i] && self.layouts@[t] == pre[t]);
                } else if t == j {
                    assert(self.layouts@[i] == pre[i]);
                } else if i == j {
                    assert(self.layouts@[t] == pre[t - 1]);
                    assert(pre[j as int].1.score < l.score);
                    if j < t - 1 {
                        assert(pre[j as int].1.score >= pre[t - 1].1.score);
                    }
                } else if i > j {
                    assert(self.layouts@[i] == pre[i - 1] && self.layouts@[t] == pre[t - 1]);
                } else {
                    assert(self.layouts@[i] == pre[i] && self.layouts@[t] == pre[t - 1]);
                    assert(i < t - 1);
                }
            }
            assert forall|k: int| 0 <= k < self.layouts@.len() implies (
            #[trigger] self.layouts@[k]).1.wf() && self.layouts@[k].1.score == spec_score(
                self.generation,
                self.layouts@[k].1.matrix@,
                self.layouts@[k].1.pos_of@,
            ) by {
                if k < j {
                    assert(self.layouts@[k] == pre[k]);
                } else if k > j {
                    assert(self.layouts@[k] == pre[k - 1]);
                }
            }
            assert(self.layouts@[j as int].0@ == name@);
            assert(self.layouts@[j as int].1 == l);
            assert forall|n: Seq<char>| spec_taken(pre, n) implies spec_taken(
                self.layouts@,
                n,
            ) by {
                let k = choose|k: int| 0 <= k < pre.len() && (#[trigger] pre[k]).0@ == n;
                if k < j {
                    assert(self.layouts@[k].0@ == n);
                } else {
                    assert(self.layouts@[k + 1].0@ == n);
                }
            }
            assert forall|n: Seq<char>, m: Seq<u8>|
                spec_has_entry(pre, n, m) implies spec_has_entry(self.layouts@, n, m) by {
                let k = choose|k: int|
                    0 <= k < pre.len() && (#[trigger] pre[k]).0@ == n && pre[k].1.matrix@ == m;
                if k < j {
                    assert(self.layouts@[k].0@ == n && self.layouts@[k].1.matrix@ == m);
                } else {
                    assert(self.layouts@[k + 1].0@ == n && self.layouts@[k + 1].1.matrix@ == m);
                }
            }
        }
    }

    /// Build a registry from named layout texts: malformed ones are skipped,
    /// the rest are scored and ranked.
    pub fn new(generation: LayoutGeneration, language: String, files: &Vec<(Vec<char>, Vec<char>)>)
        -> (r: LayoutAnalysis)
        requires
            generation.wf(),
        ensures
            r.wf(),
            r.layouts@.len() == spec_parseable_count(generation.data.convert_u8, files@),
            forall|k: int|
                0 <= k < files@.len() && spec_parseable(
                    generation.data.convert_u8,
                    (#[trigger] files@[k]).1@,
                ) ==> spec_has_entry(
                    r.layouts@,
                    files@[k].0@,
                    spec_parsed_matrix(generation.data.convert_u8, files@[k].1@),
                ),
    {
        let mut analysis = LayoutAnalysis { language, generation, layouts: Vec::new() };
        analysis.load_layouts(files);
        analysis
    }

    /// Parse, score and insert every readable layout text, skipping the rest:
    /// every file whose text parses lands in the registry under its own name,
    /// holding the layout that text parses to.
    pub fn load_layouts(&mut self, files: &Vec<(Vec<char>, Vec<char>)>)
        requires
            old(self).wf(),
        ensures
            final(self).wf(),
            final(self).layouts@.len() == old(self).layouts@.len() + spec_parseable_count(
                old(self).generation.data.convert_u8,
                files@,
            ),
            forall|k: int|
                0 <= k < files@.len() && spec_parseable(
                    old(self).generation.data.convert_u8,
                    (#[trigger] files@[k]).1@,
                ) ==> spec_has_entry(
                    final(self).layouts@,
                    files@[k].0@,
                    spec_parsed_matrix(old(self).generation.data.convert_u8, files@[k].1@),
                ),
    {
        let mut k: usize = 0;
        while k < files.len()
            invariant
                self.wf(),
                self.generation == old(self).generation,
                k <= files@.len(),
                self.layouts@.len() == old(self).layouts@.len() + spec_parseable_count(
                    self.generation.data.convert_u8,
                    files@.take(k as int),
                ),
                forall|t: int|
                    0 <= t < k && spec_parseable(
                        self.generation.data.convert_u8,
                        (#[trigger] files@[t]).1@,
                    ) ==> spec_has_entry(
                        self.layouts@,
                        files@[t].0@,
                        spec_parsed_matrix(self.generation.data.convert_u8, files@[t].1@),
                    ),
            decreases files@.len() - k,
        {
            proof {
                assert(files@.take(k + 1).drop_last() =~= files@.take(k as int));
                assert(files@.take(k + 1).last() == files@[k as int]);
            }
            let (_name, content) = &files[k];
            match FastLayout::parse(&self.generation.data.convert_u8, content) {
                Ok(mut l) => {
                    let s = self.generation.score(&l);
                    l.score = s;
                    let mut name_copy: Vec<char> = Vec::new();
                    let src = &files[k].0;
                    let mut t: usize = 0;
                    while t < src.len()
                        invariant
                            t <= src@.len(),
                            name_copy@.len() == t,
                            name_copy@ == src@.take(t as int),
                        decreases src@.len() - t,
                    {
                        name_copy.push(src[t]);
                        proof {
                            assert(name_copy@ =~= src@.take(t + 1));
                        }
                        t += 1;
                    }
                    proof {
                        assert(name_copy@ =~= files@[k as int].0@);
                    }
                    self.insert_entry(name_copy, l);
                },
                Err(_) => {},
            }
            k += 1;
        }
        proof {
            assert(files@.take(files@.len() as int) =~= files@);
        }
    }

    /// How many layouts are known.
    pub fn num_layouts(&self) -> (n: usize)
        ensures
            n == self.layouts@.len(),
    {
        self.layouts.len()
    }

    /// The name of the ranked layout at an index.
    pub fn name_at(&self, i: usize) -> (r: &Vec<char>)
        requires
            i < self.layouts@.len(),
        ensures
            r@ == self.layouts@[i as int].0@,
    {
        &self.layouts[i].0
    }

    /// The ranked layout at an index.
    pub fn layout_at(&self, i: usize) -> (r: &FastLayout)
        requires
            i < self.layouts@.len(),
        ensures
            *r == self.layouts@[i as int].1,
    {
        &self.layouts[i].1
    }

    /// The scores of all known layouts, best first.
    pub fn rank(&self) -> (r: Vec<i128>)
        ensures
            r@.len() == self.layouts@.len(),
            forall|k: int| 0 <= k < r@.len() ==> (#[trigger] r@[k]) == self.layouts@[k].1.score,
    {
        let mut r: Vec<i128> = Vec::new();
        let mut k: usize = 0;
        while k < self.layouts.len()
            invariant
                k <= self.layouts@.len(),
                r@.len() == k,
                forall|t: int| 0 <= t < k ==> (#[trigger] r@[t]) == self.layouts@[t].1.score,
            decreases self.layouts@.len() - k,
        {
            r.push(self.layouts[k].1.score);
            k += 1;
        }
        r
    }

    /// The layout a name stands for, if any.
    pub fn layout_by_name(&self, name: &Vec<char>) -> (r: Option<&FastLayout>)
        ensures
            match r {
                Some(l) => exists|k: int|
                    0 <= k < self.layouts@.len() && (#[trigger] self.layouts@[k]).0@ == name@
                        && *l == self.layouts@[k].1,
                None => !spec_taken(self.layouts@, name@),
            },
    {
        let mut k: usize = 0;
        while k < self.layouts.len()
            invariant
                k <= self.layouts@.len(),
                forall|t: int| 0 <= t < k ==> (#[trigger] self.layouts@[t]).0@ != name@,
            decreases self.layouts@.len() - k,
        {
            if chars_eq(&self.layouts[k].0, name) {
                return Some(&self.layouts[k].1);
            }
            k += 1;
        }
        None
    }

    /// The candidate placeholder name: the four right-hand home-row keys,
    /// then the decimal suffix.
    pub open spec fn spec_candidate(&self, l: FastLayout, i: int) -> Seq<char> {
        Seq::new(4, |t: int| self.generation.data.convert_u8.spec_char(l.matrix@[16 + t] as int))
            + spec_digits(i)
    }

    /// A fresh placeholder name for an unnamed layout: the right half of the
    /// home row, then the smallest positive number that avoids every taken
    /// name. Fails only when a home-row id has no character or every candidate
    /// up to a thousand is taken.
    pub fn placeholder_name(&self, layout: &FastLayout) -> (r: Result<Vec<char>, ()>)
        requires
            self.wf(),
            layout.wf(),
        ensures
            match r {
                Ok(name) => {
                    &&& !spec_taken(self.layouts@, name@)
                    &&& exists|i: int|
                        1 <= i < 1000 && name@ == #[trigger] self.spec_candidate(*layout, i) && (
                        forall|t: int|
                            1 <= t < i ==> spec_taken(
                                self.layouts@,
                                #[trigger] self.spec_candidate(*layout, t),
                            ))
                },
                Err(_) => (exists|q: int|
                    16 <= q < 20 && ((#[trigger] layout.matrix@[q]) as nat)
                        >= self.generation.data.convert_u8.spec_len()) || (forall|i: int|
                    1 <= i < 1000 ==> spec_taken(
                        self.layouts@,
                        #[trigger] self.spec_candidate(*layout, i),
                    )),
            },
    {
        let mut base: Vec<char> = Vec::new();
        let mut t: usize = 0;
        while t < 4
            invariant
                self.wf(),
                layout.wf(),
                t <= 4,
                base@.len() == t,
                forall|q: int|
                    0 <= q < t ==> #[trigger] base@[q] == self.generation.data.convert_u8.spec_char(
                        layout.matrix@[16 + q] as int,
                    ),
            decreases 4 - t,
        {
            let ghost oldbase = base@;
            let id = layout.c(16 + t);
            match self.generation.data.convert_u8.decode(id) {
                Some(c) => {
                    base.push(c);
                    proof {
                        assert forall|q: int|
                            0 <= q < t + 1 implies #[trigger] base@[q]
                            == self.generation.data.convert_u8.spec_char(
                            layout.matrix@[16 + q] as int,
                        ) by {
                            if q < t {
                                assert(base@[q] == oldbase[q]);
                            } else {
                                assert(base@[q] == c);
                            }
                        }
                    }
                },
                None => {
                    return Err(());
                },
            }
            t += 1;
        }
        let mut i: usize = 1;
        while i < 1000
            invariant
                self.wf(),
                layout.wf(),
                1 <= i <= 1000,
                base@.len() == 4,
                forall|q: int|
                    0 <= q < 4 ==> #[trigger] base@[q] == self.generation.data.convert_u8.spec_char(
                        layout.matrix@[16 + q] as int,
                    ),
                forall|t2: int|
                    1 <= t2 < i ==> spec_taken(
                        self.layouts@,
                        #[trigger] self.spec_candidate(*layout, t2),
                    ),
            decreases 1000 - i,
        {
            let mut candidate: Vec<char> = Vec::new();
            let mut q: usize = 0;
            while q < 4
                invariant
                    q <= 4,
                    base@.len() == 4,
                    candidate@.len() == q,
                    candidate@ == base@.take(q as int),
                decreases 4 - q,
            {
                candidate.push(base[q]);
                proof {
                    assert(candidate@ =~= base@.take(q + 1));
                }
                q += 1;
            }
            let mut suffix = digits_of(i);
            let ghost pre = candidate@;
            candidate.append(&mut suffix);
            proof {
                assert(base@.take(4) =~= base@);
                assert(candidate@ == base@ + spec_digits(i as int));
                assert(base@ =~= Seq::new(
                    4,
                    |t: int| self.generation.data.convert_u8.spec_char(
                        layout.matrix@[16 + t] as int,
                    ),
                ));
                assert(candidate@ == self.spec_candidate(*layout, i as int));
            }
            let mut taken = false;
            let mut k: usize = 0;
            while k < self.layouts.len()
                invariant
                    k <= self.layouts@.len(),
                    taken ==> spec_taken(self.layouts@, candidate@),
                    !taken ==> forall|t2: int|
                        0 <= t2 < k ==> (#[trigger] self.layouts@[t2]).0@ != candidate@,
                decreases self.layouts@.len() - k,
            {
                if chars_eq(&self.layouts[k].0, &candidate) {
                    taken = true;
                }
                k += 1;
            }
            if !taken {
                return Ok(candidate);
            }
            i += 1;
        }
        Err(())
    }

    /// Parse a layout text and break its score down, without storing it: the
    /// returned statistics are those of exactly the layout the text parses to.
    pub fn analyze_str(&self, text: &Vec<char>) -> (r: Result<
        crate::stats::LayoutStats,
        crate::layout::LayoutError,
    >)
        requires
            self.wf(),
        ensures
            r is Ok <==> spec_parseable(self.generation.data.convert_u8, text@),
            match r {
                Ok(stats) => {
                    let g = self.generation;
                    let m = spec_parsed_matrix(g.data.convert_u8, text@);
                    exists|pos: Seq<u8>|
                        {
                            &&& #[trigger] spec_rev_ok(m, pos)
                            &&& stats.sfb == crate::stats::spec_bigram_mass(
                                g,
                                m,
                                g.data.bigrams@,
                                48,
                            )
                            &&& stats.dsfb == crate::stats::spec_bigram_mass(
                                g,
                                m,
                                g.data.skipgrams@,
                                48,
                            )
                            &&& stats.scissors == crate::scorer::spec_scissor_slice(g, m, 15)
                            &&& stats.fspeed == crate::cache::spec_fspeed_sum(g, m, 8)
                            &&& stats.finger_speed@.len() == 8
                            &&& (forall|c: int|
                                0 <= c < 8 ==> (#[trigger] stats.finger_speed@[c])
                                    == crate::scorer::spec_col_fspeed(g, m, c))
                            &&& crate::stats::trigram_stats_ok(
                                pos,
                                g.data.trigrams@,
                                stats.trigram_stats,
                            )
                        }
                },
                Err(_) => true,
            },
    {
        match FastLayout::parse(&self.generation.data.convert_u8, text) {
            Ok(l) => {
                let stats = self.generation.get_layout_stats(&l);
                proof {
                    assert(spec_rev_ok(l.matrix@, l.pos_of@));
                }
                Ok(stats)
            },
            Err(e) => Err(e),
        }
    }

    /// Persist a layout under a name (spaces become underscores) or under a
    /// fresh placeholder: the layout is scored, inserted in rank order, and
    /// its name and rendered text are handed back for writing.
    pub fn save(&mut self, layout: FastLayout, name: Option<Vec<char>>) -> (r: Result<
        (Vec<char>, Vec<char>),
        (),
    >)
        requires
            old(self).wf(),
            layout.wf(),
        ensures
            final(self).wf(),
            r is Ok <==> (spec_decodable(old(self).generation.data.convert_u8, layout.matrix@) && (
            name is Some || !(forall|i: int|
                1 <= i < 1000 ==> spec_taken(
                    old(self).layouts@,
                    #[trigger] old(self).spec_candidate(layout, i),
                )))),
            match r {
                Ok((n, text)) => {
                    &&& spec_taken(final(self).layouts@, n@)
                    &&& spec_rendered(
                        old(self).generation.data.convert_u8,
                        layout.matrix@,
                        text@,
                    )
                    &&& final(self).layouts@.len() == old(self).layouts@.len() + 1
                    &&& exists|k: int|
                        0 <= k < final(self).layouts@.len()
                            && (#[trigger] final(self).layouts@[k]).0@ == n@
                            && final(self).layouts@[k].1.matrix@ == layout.matrix@
                            && final(self).layouts@[k].1.pos_of@ == layout.pos_of@
                            && final(self).layouts@[k].1.score == spec_score(
                            old(self).generation,
                            layout.matrix@,
                            layout.pos_of@,
                        )
                    &&& match name {
                        Some(given) => n@.len() == given@.len() && (forall|k: int|
                            0 <= k < given@.len() ==> n@[k] == (if given@[k] == ' ' {
                                '_'
                            } else {
                                given@[k]
                            })),
                        None => {
                            &&& !spec_taken(old(self).layouts@, n@)
                            &&& exists|i: int|
                                1 <= i < 1000 && n@ == #[trigger] old(self).spec_candidate(
                                    layout,
                                    i,
                                ) && (forall|t: int|
                                    1 <= t < i ==> spec_taken(
                                        old(self).layouts@,
                                        #[trigger] old(self).spec_candidate(layout, t),
                                    ))
                        },
                    }
                },
                Err(_) => true,
            },
    {
        let new_name: Vec<char> = match name {
            Some(n) => {
                let mut clean: Vec<char> = Vec::new();
                let mut t: usize = 0;
                while t < n.len()
                    invariant
                        t <= n@.len(),
                        clean@.len() == t,
                        forall|k: int|
                            0 <= k < t ==> clean@[k] == (if n@[k] == ' ' {
                                '_'
                            } else {
                                n@[k]
                            }),
                    decreases n@.len() - t,
                {
                    let c = n[t];
                    if c == ' ' {
                        clean.push('_');
                    } else {
                        clean.push(c);
                    }
                    t += 1;
                }
                clean
            },
            None => {
                match self.placeholder_name(&layout) {
                    Ok(n) => n,
                    Err(_) => {
                        return Err(());
                    },
                }
            },
        };
        let text = match layout.render(&self.generation.data.convert_u8) {
            Ok(t) => t,
            Err(_) => {
                return Err(());
            },
        };
        let mut scored = layout;
        let s = self.generation.score(&scored);
        scored.score = s;
        let mut name_copy: Vec<char> = Vec::new();
        let mut t: usize = 0;
        while t < new_name.len()
            invariant
                t <= new_name@.len(),
                name_copy@.len() == t,
                name_copy@ == new_name@.take(t as int),
            decreases new_name@.len() - t,
        {
            name_copy.push(new_name[t]);
            proof {
                assert(name_copy@ =~= new_name@.take(t + 1));
            }
            t += 1;
        }
        proof {
            assert(name_copy@ =~= new_name@);
        }
        self.insert_entry(name_copy, scored);
        Ok((new_name, text))
    }
}

} // verus!
