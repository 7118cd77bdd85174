use oxeylyzer::BigramType;
use oxeylyzer::Config;
use oxeylyzer::FastLayout;
use oxeylyzer::FP;
use oxeylyzer::LanguageData;
use oxeylyzer::LayoutGeneration;
use oxeylyzer::col_to_start_len;
use oxeylyzer::possible_swaps;

const QWERTY: &str = "qwertyuiopasdfghjkl;zxcvbnm,./";

fn corpus_chars() -> Vec<char> {
    QWERTY.chars().collect()
}

fn make_gen() -> LayoutGeneration {
    let cs = corpus_chars();
    let mut characters: Vec<(char, i64)> = Vec::new();
    for (i, c) in cs.iter().enumerate() {
        characters.push((*c, (i as i64 + 1) * 1_000_000));
    }
    let mut bigrams: Vec<(char, char, i64)> = Vec::new();
    let mut skipgrams: Vec<(char, char, i64)> = Vec::new();
    let mut skipgrams2: Vec<(char, char, i64)> = Vec::new();
    let mut skipgrams3: Vec<(char, char, i64)> = Vec::new();
    for i in 0..30usize {
        for j in 0..30usize {
            bigrams.push((cs[i], cs[j], (((i * 31 + j * 17) % 97) as i64) * 100_000));
            skipgrams.push((cs[i], cs[j], (((i * 13 + j * 7) % 89) as i64) * 100_000));
            skipgrams2.push((cs[i], cs[j], (((i * 5 + j * 3) % 83) as i64) * 50_000));
            skipgrams3.push((cs[i], cs[j], (((i * 11 + j * 29) % 79) as i64) * 20_000));
        }
    }
    let mut trigrams: Vec<(char, char, char, i64)> = Vec::new();
    for k in 0..400usize {
        let a = cs[(k * 7) % 30];
        let b = cs[(k * 11 + 1) % 30];
        let c = cs[(k * 13 + 2) % 30];
        trigrams.push((a, b, c, (400 - k as i64) * 200_000));
    }
    let data = LanguageData::new(
        "testing".to_string(),
        &characters,
        &bigrams,
        &skipgrams,
        &skipgrams2,
        &skipgrams3,
        &trigrams,
    )
    .unwrap();
    LayoutGeneration::new(data, 1000, Some(Config::default().weights)).unwrap()
}

fn qwerty_layout(gen: &LayoutGeneration) -> FastLayout {
    let text: Vec<char> = QWERTY.chars().collect();
    FastLayout::parse(&gen.data.convert_u8, &text).unwrap()
}

#[test]
fn cached_scissors() {
    let gen = make_gen();
    let mut qwerty = qwerty_layout(&gen);
    let mut cache = gen.initialize_cache(&qwerty);

    for swap in possible_swaps().iter() {
        gen.accept_swap(&mut qwerty, swap, &mut cache);

        let weighted =
            (gen.scissor_percent(&qwerty) * (gen.weights.scissors as i128)) / (FP as i128);
        assert_eq!(cache.scissors, weighted);
        assert_eq!(cache.scissors, gen.scissor_score(&qwerty));
    }
}

#[test]
fn can_a_cache_swap() {
    let gen = make_gen();
    let mut qwerty = qwerty_layout(&gen);
    let cache = gen.initialize_cache(&qwerty);
    let swaps = possible_swaps();

    let (best_swap_normal, best_score_normal) = gen.best_swap(&mut qwerty, None, &swaps);
    let (best_swap_cached, best_score_cached) =
        gen.best_swap_cached(&mut qwerty, &cache, None, &swaps);

    assert_eq!(best_score_normal, best_score_cached);
    assert_eq!(best_swap_normal, best_swap_cached);
}

#[test]
fn score_arbitrary_swaps() {
    let gen = make_gen();
    let mut qwerty = qwerty_layout(&gen);
    let cache = gen.initialize_cache(&qwerty);

    for swap in possible_swaps().iter() {
        let score_normal = gen.score_swap(&mut qwerty, swap);
        let score_cached = gen.score_swap_cached(&mut qwerty, swap, &cache);

        assert_eq!(score_normal, score_cached);
    }
}

#[test]
fn accept_swaps() {
    let gen = make_gen();
    let mut qwerty = qwerty_layout(&gen);
    let mut cache = gen.initialize_cache(&qwerty);

    let fsum: i128 = cache.fspeed.iter().sum();
    assert_eq!(fsum, cache.fspeed_total);
    assert_eq!(cache.total_score(), gen.score_with_precision(&qwerty, 1000));

    for swap in possible_swaps().iter() {
        gen.accept_swap(&mut qwerty, swap, &mut cache);

        let fsum: i128 = cache.fspeed.iter().sum();
        assert_eq!(fsum, cache.fspeed_total);
        assert_eq!(cache.total_score(), gen.score_with_precision(&qwerty, 1000));
    }
}

#[test]
fn test_col_fspeed() {
    let reference = [(0, 3), (3, 3), (6, 3), (18, 15), (33, 15), (9, 3), (12, 3), (15, 3)];
    for i in 0..8 {
        let test = col_to_start_len(i);
        assert_eq!(test, reference[i]);
    }
}

#[test]
fn optimize_qwerty() {
    let gen = make_gen();
    let qwerty = qwerty_layout(&gen);
    let swaps = possible_swaps();

    let optimized_normal = gen.optimize_normal_no_cols(qwerty.duplicate(), &swaps);
    let normal_score = gen.score_with_precision(&optimized_normal, 1000);

    let mut cache = gen.initialize_cache(&qwerty);
    let mut qwerty_for_cached = qwerty.duplicate();
    let best_cached_score = gen.optimize_cached(&mut qwerty_for_cached, &mut cache, &swaps);

    assert_eq!(normal_score, best_cached_score);

    let with_cols = gen.optimize(qwerty.duplicate(), &swaps);
    let with_cols_score = gen.score(&with_cols);
    assert!(with_cols_score >= gen.score(&qwerty));
}

#[test]
fn bigram_percent_reads_each_table() {
    let gen = make_gen();
    let qwerty = qwerty_layout(&gen);
    let sfb = gen.bigram_percent(&qwerty, BigramType::Sfb);
    let dsfb = gen.bigram_percent(&qwerty, BigramType::Dsfb);
    let dsfb2 = gen.bigram_percent(&qwerty, BigramType::Dsfb2);
    let dsfb3 = gen.bigram_percent(&qwerty, BigramType::Dsfb3);
    assert!(sfb > 0 && dsfb > 0 && dsfb2 > 0 && dsfb3 > 0);
    // the four tables were built from different masses, so the sums differ
    assert!(sfb != dsfb && dsfb2 != dsfb3 && sfb != dsfb2);
}

#[test]
fn precision_caps_the_trigram_reward() {
    let gen = make_gen();
    let qwerty = qwerty_layout(&gen);
    let cache = gen.initialize_cache(&qwerty);
    // the full list and anything past its end give the whole score
    assert_eq!(gen.score_with_precision(&qwerty, usize::MAX), gen.score(&qwerty));
    // with no trigrams admitted, only the reward term falls away
    assert_eq!(gen.score_with_precision(&qwerty, 0), gen.score(&qwerty) - cache.trigrams_total);
}

#[test]
fn stats_are_consistent() {
    let gen = make_gen();
    let qwerty = qwerty_layout(&gen);
    let stats = gen.get_layout_stats(&qwerty);
    let fsum: i128 = stats.finger_speed.iter().sum();
    assert_eq!(fsum, stats.fspeed);
    assert_eq!(stats.scissors, gen.scissor_percent(&qwerty));
    let ts = gen.trigram_stats(&qwerty, usize::MAX);
    assert_eq!(stats.trigram_stats.inrolls, ts.inrolls);
    assert_eq!(stats.trigram_stats.sfts, ts.sfts);
}
