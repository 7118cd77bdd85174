use oxeylyzer::Config;
use oxeylyzer::FastLayout;
use oxeylyzer::FP;
use oxeylyzer::LanguageData;
use oxeylyzer::LayoutAnalysis;
use oxeylyzer::LayoutGeneration;
use oxeylyzer::MaxFingerUse;
use oxeylyzer::TrigramPattern;
use oxeylyzer::Weights;
use oxeylyzer::base_effort;
use oxeylyzer::classify;
use oxeylyzer::possible_swaps;

const QWERTY: &str = "qwertyuiopasdfghjkl;zxcvbnm,./";

fn zero_weights() -> Weights {
    Weights {
        heatmap: [0, 0],
        sfb: 0,
        dsfb: 0,
        fspeed: 0,
        scissors: 0,
        inrolls: 0,
        outrolls: 0,
        onehands: 0,
        alternates: 0,
        alternates_sfs: 0,
        redirects: 0,
        bad_redirects: 0,
        lateral_penalty: 0,
        dsfb_ratio: 0,
        dsfb_ratio2: 0,
        dsfb_ratio3: 0,
        max_finger_use: MaxFingerUse { pinky: 0, ring: 0, middle: 0, index: 0, penalty: 0 },
    }
}

fn make_gen() -> LayoutGeneration {
    let cs: Vec<char> = QWERTY.chars().collect();
    let mut characters: Vec<(char, i64)> = Vec::new();
    for (i, c) in cs.iter().enumerate() {
        characters.push((*c, (i as i64 + 1) * 1_000_000));
    }
    let mut bigrams: Vec<(char, char, i64)> = Vec::new();
    let mut skipgrams: Vec<(char, char, i64)> = Vec::new();
    let mut skipgrams2: Vec<(char, char, i64)> = Vec::new();
    let mut skipgrams3: Vec<(char, char, i64)> = Vec::new();
    for i in 0..30usize {
        for j in 0..30usize {
            bigrams.push((cs[i], cs[j], (((i * 31 + j * 17) % 97) as i64) * 100_000));
            skipgrams.push((cs[i], cs[j], (((i * 13 + j * 7) % 89) as i64) * 100_000));
            skipgrams2.push((cs[i], cs[j], (((i * 5 + j * 3) % 83) as i64) * 50_000));
            skipgrams3.push((cs[i], cs[j], (((i * 11 + j * 29) % 79) as i64) * 20_000));
        }
    }
    let mut trigrams: Vec<(char, char, char, i64)> = Vec::new();
    for k in 0..400usize {
        let a = cs[(k * 7) % 30];
        let b = cs[(k * 11 + 1) % 30];
        let c = cs[(k * 13 + 2) % 30];
        trigrams.push((a, b, c, (400 - k as i64) * 200_000));
    }
    let data = LanguageData::new(
        "testing".to_string(),
        &characters,
        &bigrams,
        &skipgrams,
        &skipgrams2,
        &skipgrams3,
        &trigrams,
    )
    .unwrap();
    LayoutGeneration::new(data, 1000, Some(Config::default().weights)).unwrap()
}

fn alphabet_30() -> Vec<char> {
    QWERTY.chars().collect()
}

#[test]
fn single_character_model_scores_its_effort() {
    // one real character, everything else silent; only the heatmap acts
    let cs = alphabet_30();
    let mut characters: Vec<(char, i64)> = Vec::new();
    characters.push(('a', FP));
    for c in cs.iter() {
        if *c != 'a' {
            characters.push((*c, 0));
        }
    }
    let empty_pairs: Vec<(char, char, i64)> = Vec::new();
    let empty_tris: Vec<(char, char, char, i64)> = Vec::new();
    let data = LanguageData::new(
        "testing".to_string(),
        &characters,
        &empty_pairs,
        &empty_pairs,
        &empty_pairs,
        &empty_pairs,
        &empty_tris,
    )
    .unwrap();
    let mut weights = zero_weights();
    weights.heatmap = [FP, 0];
    let gen = LayoutGeneration::new(data, 1000, Some(weights)).unwrap();

    let a = gen.data.convert_u8.encode('a').unwrap();
    // place the alphabet in codec order: 'a' starts on position 0
    let mut ids: Vec<u8> = Vec::new();
    for i in 0..30u8 {
        ids.push(i);
    }
    let layout = FastLayout::from_ids(&ids).unwrap();
    let pos_a = layout.position_of(a);
    assert_eq!(gen.score(&layout), -(base_effort(pos_a) as i128));

    // the climb moves the single character to a cheapest position
    let optimized = gen.optimize(layout, &possible_swaps());
    let best = gen.data.convert_u8.encode('a').unwrap();
    let final_pos = optimized.position_of(best);
    let mut cheapest = base_effort(0);
    for p in 0..30 {
        if base_effort(p) < cheapest {
            cheapest = base_effort(p);
        }
    }
    assert_eq!(base_effort(final_pos), cheapest);
    assert_eq!(gen.score(&optimized), -(cheapest as i128));
}

#[test]
fn single_trigram_model_finds_an_inroll() {
    // one trigram carrying all the mass, rewarded only as an inward roll
    let cs = alphabet_30();
    let mut characters: Vec<(char, i64)> = Vec::new();
    characters.push(('a', 0));
    characters.push(('b', 0));
    characters.push(('c', 0));
    for c in cs.iter() {
        if *c != 'a' && *c != 'b' && *c != 'c' {
            characters.push((*c, 0));
        }
    }
    let empty_pairs: Vec<(char, char, i64)> = Vec::new();
    let trigrams = vec![('a', 'b', 'c', FP)];
    let data = LanguageData::new(
        "testing".to_string(),
        &characters,
        &empty_pairs,
        &empty_pairs,
        &empty_pairs,
        &empty_pairs,
        &trigrams,
    )
    .unwrap();
    let mut weights = zero_weights();
    weights.inrolls = FP;
    let gen = LayoutGeneration::new(data, 1000, Some(weights)).unwrap();

    let layout = gen.generate(7);
    let a = gen.data.convert_u8.encode('a').unwrap();
    let b = gen.data.convert_u8.encode('b').unwrap();
    let c = gen.data.convert_u8.encode('c').unwrap();
    let pat = classify(layout.position_of(a), layout.position_of(b), layout.position_of(c));
    assert_eq!(pat, TrigramPattern::Inroll);
    // the whole reward is earned: weight 1.0 times frequency 1.0
    assert_eq!(layout.score, FP as i128);
}

#[test]
fn pinned_generation_never_moves_pins() {
    let gen = make_gen();
    let text: Vec<char> = QWERTY.chars().collect();
    let template = FastLayout::parse(&gen.data.convert_u8, &text).unwrap();
    let pins: Vec<usize> = vec![3, 4, 5, 6];
    for seed in 0..10u64 {
        let generated = gen.generate_pinned(&template, &pins, seed);
        for p in pins.iter() {
            assert_eq!(generated.matrix[*p], template.matrix[*p]);
        }
    }
}

#[test]
fn generated_rankings_are_sorted() {
    let gen = make_gen();
    let layouts = gen.generate_n(3, 12345);
    assert_eq!(layouts.len(), 3);
    assert!(layouts[0].score >= layouts[1].score);
    assert!(layouts[1].score >= layouts[2].score);
    for l in layouts.iter() {
        assert_eq!(l.score, gen.score(l));
    }
}

#[test]
fn saved_placeholder_names_count_up() {
    let gen = make_gen();
    let files: Vec<(Vec<char>, Vec<char>)> = Vec::new();
    let mut analysis = LayoutAnalysis::new(gen, "testing".to_string(), &files);
    let text: Vec<char> = QWERTY.chars().collect();
    // the right half of the home row of this layout reads "jkl;"
    let layout = FastLayout::parse(&analysis.generation.data.convert_u8, &text).unwrap();

    let (n1, rendered) = analysis.save(layout.duplicate(), None).unwrap();
    let (n2, _) = analysis.save(layout.duplicate(), None).unwrap();
    let (n3, _) = analysis.save(layout.duplicate(), None).unwrap();
    let s1: String = n1.into_iter().collect();
    let s2: String = n2.into_iter().collect();
    let s3: String = n3.into_iter().collect();
    assert_eq!(s1, "jkl;1");
    assert_eq!(s2, "jkl;2");
    assert_eq!(s3, "jkl;3");
    let text: String = rendered.into_iter().collect();
    assert_eq!(text, "qwert yuiop\nasdfg hjkl;\nzxcvb nm,./\n");
    assert_eq!(analysis.num_layouts(), 3);
}

#[test]
fn registry_loads_ranks_and_finds() {
    let gen = make_gen();
    let qwerty: Vec<char> = QWERTY.chars().collect();
    let colemak: Vec<char> = "qwfpgjluy;arstdhneiozxcvbkm,./".chars().collect();
    let broken: Vec<char> = "qq".chars().collect();
    let files: Vec<(Vec<char>, Vec<char>)> = vec![
        ("qwerty".chars().collect(), qwerty.clone()),
        ("colemak".chars().collect(), colemak),
        ("broken".chars().collect(), broken),
    ];
    let analysis = LayoutAnalysis::new(gen, "testing".to_string(), &files);
    // the malformed file is skipped, not fatal
    assert_eq!(analysis.num_layouts(), 2);
    let ranks = analysis.rank();
    assert!(ranks[0] >= ranks[1]);
    let found = analysis.layout_by_name(&"qwerty".chars().collect());
    assert!(found.is_some());
    let missing = analysis.layout_by_name(&"dvorak".chars().collect());
    assert!(missing.is_none());
}

#[test]
fn pinned_swap_list_is_the_filtered_enumeration() {
    let pins: Vec<usize> = vec![3, 4, 5, 6];
    let kept = oxeylyzer::pinned_swaps(&pins);
    // 26 unpinned positions leave 26 choose 2 pairs
    assert_eq!(kept.len(), 325);
    let all = possible_swaps();
    assert_eq!(all.len(), 435);
    let expected: Vec<_> =
        all.iter().filter(|p| !pins.contains(&p.0) && !pins.contains(&p.1)).cloned().collect();
    assert_eq!(kept, expected);
    let empty_pins: Vec<usize> = Vec::new();
    assert_eq!(oxeylyzer::pinned_swaps(&empty_pins), all);
}

#[test]
fn analyze_str_reports_the_parsed_layout() {
    let gen = make_gen();
    let files: Vec<(Vec<char>, Vec<char>)> = Vec::new();
    let analysis = LayoutAnalysis::new(gen, "testing".to_string(), &files);
    let text: Vec<char> = QWERTY.chars().collect();
    let layout = FastLayout::parse(&analysis.generation.data.convert_u8, &text).unwrap();
    let direct = analysis.generation.get_layout_stats(&layout);
    let via_text = analysis.analyze_str(&text).unwrap();
    assert_eq!(via_text.sfb, direct.sfb);
    assert_eq!(via_text.dsfb, direct.dsfb);
    assert_eq!(via_text.scissors, direct.scissors);
    assert_eq!(via_text.fspeed, direct.fspeed);
    assert_eq!(via_text.trigram_stats.inrolls, direct.trigram_stats.inrolls);
    let garbage: Vec<char> = "qq".chars().collect();
    assert!(analysis.analyze_str(&garbage).is_err());
}

#[test]
fn save_rejects_undecodable_layouts() {
    let gen = make_gen();
    let files: Vec<(Vec<char>, Vec<char>)> = Vec::new();
    let mut analysis = LayoutAnalysis::new(gen, "testing".to_string(), &files);
    // ids 59 downward are valid board keys but have no character in this codec
    let ids: Vec<u8> = (30..60).collect();
    let layout = FastLayout::from_ids(&ids).unwrap();
    assert!(analysis.save(layout, None).is_err());
    assert_eq!(analysis.num_layouts(), 0);
}

#[test]
fn save_fails_once_every_placeholder_is_taken() {
    let gen = make_gen();
    let files: Vec<(Vec<char>, Vec<char>)> = Vec::new();
    let mut analysis = LayoutAnalysis::new(gen, "testing".to_string(), &files);
    let text: Vec<char> = QWERTY.chars().collect();
    let layout = FastLayout::parse(&analysis.generation.data.convert_u8, &text).unwrap();
    for _ in 0..999 {
        analysis.save(layout.duplicate(), None).unwrap();
    }
    assert!(analysis.save(layout.duplicate(), None).is_err());
    // an explicit name still works
    let named = analysis.save(layout.duplicate(), Some("spare one".chars().collect())).unwrap();
    let name: String = named.0.into_iter().collect();
    assert_eq!(name, "spare_one");
}

#[test]
fn heat_shades_follow_frequency() {
    let gen = make_gen();
    // frequencies rise with the id in this model, so shades fall
    let low = gen.heatmap_heat(0);
    let high = gen.heatmap_heat(29);
    assert!(low >= high);
    assert_eq!(low as i128, 215 - (1_000_000i128 * 1720) / (FP as i128));
}

#[test]
fn effort_map_applies_scale_and_offset() {
    let map = oxeylyzer::get_effort_map([FP, 123]);
    for i in 0..30 {
        assert_eq!(map[i], base_effort(i) + 123);
    }
    let doubled = oxeylyzer::get_effort_map([2 * FP, 0]);
    assert_eq!(doubled[0], 2 * base_effort(0));
}
