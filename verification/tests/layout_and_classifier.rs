use oxeylyzer::CharCodec;
use oxeylyzer::FastLayout;
use oxeylyzer::LayoutError;
use oxeylyzer::Lcg;
use oxeylyzer::TrigramPattern;
use oxeylyzer::classify;
use oxeylyzer::possible_swaps;

const QWERTY: &str = "qwertyuiopasdfghjkl;zxcvbnm,./";

fn qwerty_codec() -> CharCodec {
    let mut codec = CharCodec::new();
    for c in QWERTY.chars() {
        codec.insert(c).unwrap();
    }
    codec
}

#[test]
fn parse_qwerty() {
    let codec = qwerty_codec();
    let text: Vec<char> = QWERTY.chars().collect();
    let layout = FastLayout::parse(&codec, &text).unwrap();
    for (i, c) in "qwertyuiop".chars().enumerate() {
        let id = codec.encode(c).unwrap();
        assert_eq!(layout.matrix[i], id);
    }
    let a = codec.encode('a').unwrap();
    assert_eq!(layout.position_of(a), 10);
}

#[test]
fn parse_strips_whitespace() {
    let codec = qwerty_codec();
    let text: Vec<char> = "qwert yuiop\nasdfg hjkl;\r\nzxcvb nm,./\n".chars().collect();
    let layout = FastLayout::parse(&codec, &text).unwrap();
    let plain: String = layout.layout_str(&codec).unwrap().into_iter().collect();
    assert_eq!(plain, QWERTY);
}

#[test]
fn parse_errors() {
    let codec = qwerty_codec();
    let short: Vec<char> = "qwerty".chars().collect();
    assert!(matches!(FastLayout::parse(&codec, &short), Err(LayoutError::TooShort)));
    let unknown: Vec<char> = "Qwertyuiopasdfghjkl;zxcvbnm,./".chars().collect();
    assert!(matches!(FastLayout::parse(&codec, &unknown), Err(LayoutError::UnknownKey)));
    let duplicated: Vec<char> = "qqertyuiopasdfghjkl;zxcvbnm,./".chars().collect();
    assert!(matches!(FastLayout::parse(&codec, &duplicated), Err(LayoutError::DuplicateKey)));
}

#[test]
fn swaps_keep_the_permutation() {
    let codec = qwerty_codec();
    let text: Vec<char> = QWERTY.chars().collect();
    let mut layout = FastLayout::parse(&codec, &text).unwrap();
    let before = {
        let mut v = layout.matrix.clone();
        v.sort();
        v
    };
    for swap in possible_swaps().iter() {
        layout.swap_pair(swap);
        // the reverse index stays exact under every swap
        for i in 0..30 {
            assert_eq!(layout.position_of(layout.c(i)), i);
        }
    }
    let after = {
        let mut v = layout.matrix.clone();
        v.sort();
        v
    };
    assert_eq!(before, after);
}

#[test]
fn swapping_twice_restores_the_layout() {
    let codec = qwerty_codec();
    let text: Vec<char> = QWERTY.chars().collect();
    let mut layout = FastLayout::parse(&codec, &text).unwrap();
    let matrix_before = layout.matrix.clone();
    let pos_before = layout.pos_of.clone();
    layout.swap(4, 27);
    layout.swap(4, 27);
    assert_eq!(layout.matrix, matrix_before);
    assert_eq!(layout.pos_of, pos_before);
}

#[test]
fn render_qwerty() {
    let codec = qwerty_codec();
    let text: Vec<char> = QWERTY.chars().collect();
    let layout = FastLayout::parse(&codec, &text).unwrap();
    let rendered: String = layout.render(&codec).unwrap().into_iter().collect();
    assert_eq!(rendered, "qwert yuiop\nasdfg hjkl;\nzxcvb nm,./\n");
}

#[test]
fn random_pins_hold_their_keys() {
    let codec = qwerty_codec();
    let text: Vec<char> = QWERTY.chars().collect();
    let template = FastLayout::parse(&codec, &text).unwrap();
    let pins: Vec<usize> = vec![3, 4, 5, 6];
    for seed in 0..20u64 {
        let mut rng = Lcg::new(seed);
        let shuffled = FastLayout::random_pins(&template, &pins, &mut rng);
        for p in pins.iter() {
            assert_eq!(shuffled.matrix[*p], template.matrix[*p]);
        }
        let mut a = shuffled.matrix.clone();
        let mut b = template.matrix.clone();
        a.sort();
        b.sort();
        assert_eq!(a, b);
    }
}

#[test]
fn classifier_is_total() {
    for p1 in 0..30 {
        for p2 in 0..30 {
            for p3 in 0..30 {
                let pat = classify(p1, p2, p3);
                assert!(pat != TrigramPattern::Invalid);
                assert!(pat != TrigramPattern::Other);
            }
        }
    }
    assert_eq!(classify(0, 1, 30), TrigramPattern::Invalid);
    assert_eq!(classify(99, 1, 2), TrigramPattern::Invalid);
}

#[test]
fn classifier_patterns() {
    // positions 0,1,2 sit on columns 0,1,2 of the left hand
    assert_eq!(classify(0, 1, 2), TrigramPattern::Onehand);
    assert_eq!(classify(2, 1, 0), TrigramPattern::Onehand);
    // one column three times is a same-finger trigram
    assert_eq!(classify(0, 10, 20), TrigramPattern::Sft);
    // a non-monotonic one-hand run without an index finger redirects badly
    assert_eq!(classify(0, 2, 1), TrigramPattern::BadRedirect);
    // the same with an index finger involved is an ordinary redirect
    assert_eq!(classify(0, 3, 1), TrigramPattern::Redirect);
    // left, right, left with two different left columns alternates
    assert_eq!(classify(0, 15, 2), TrigramPattern::Alternate);
    // the same finger on both outer keys is the skipgram variant
    assert_eq!(classify(0, 15, 10), TrigramPattern::AlternateSfs);
    // two adjacent left keys rolling toward the index, then the right hand
    assert_eq!(classify(0, 1, 15), TrigramPattern::Inroll);
    assert_eq!(classify(1, 0, 15), TrigramPattern::Outroll);
    // a repeated finger beside a short transition is a plain same-finger bigram
    assert_eq!(classify(0, 10, 1), TrigramPattern::Sfb);
    // a repeated finger beside a two-column jump on one hand is the bad kind
    assert_eq!(classify(0, 10, 2), TrigramPattern::BadSfb);
}
