use shanten_count::dict::DistanceDict;
use shanten_count::notation::{tile_images, TileImage};
use shanten_count::shanten::{Hand, JihaiHand, SuuhaiHand};

fn hand(text: &str) -> Hand {
    Hand::parse(text).expect("well-formed hand")
}

fn three(text: &str) -> (i8, i8, i8) {
    let h = hand(text);
    (h.shanten_standard(), h.shanten_kokushimusou(), h.shanten_chiitoitsu())
}

#[test]
fn golden_mixed_hand() {
    assert_eq!(three("123456789m123p123s1z"), (0, 8, 6));
}

#[test]
fn complete_standard_hand_is_minus_one() {
    assert_eq!(hand("123m456p789s11122z").shanten_standard(), -1);
    assert_eq!(hand("11123455678999m").shanten_standard(), -1);
}

#[test]
fn one_away_standard_hand() {
    assert_eq!(hand("123m456p789s1112z").shanten_standard(), 0);
    assert_eq!(hand("123m456p789s11123z").shanten_standard(), 0);
}

#[test]
fn mirrored_family_keeps_shanten() {
    let a = hand("1245m3699p2378s15z").shanten_standard();
    let b = hand("9865m7411p2378s15z").shanten_standard();
    assert_eq!(a, b);
}

#[test]
fn seven_pairs_values() {
    assert_eq!(hand("1122334455667z").shanten_chiitoitsu(), 0);
    assert_eq!(hand("11223344556677z").shanten_chiitoitsu(), -1);
    assert_eq!(hand("1111m2233p4455s66z").shanten_chiitoitsu(), 1);
}

#[test]
fn thirteen_orphans_values() {
    assert_eq!(hand("19m19p19s12345677z").shanten_kokushimusou(), -1);
    assert_eq!(hand("19m19p19s1234567z").shanten_kokushimusou(), 0);
    assert_eq!(hand("2345678m2345678p").shanten_kokushimusou(), 13);
}

#[test]
fn suit_distance_values() {
    let v = SuuhaiHand([1, 1, 1, 0, 0, 0, 0, 0, 0]);
    assert_eq!(v.dist(0), 0);
    assert_eq!(v.dist(3), 0);
    assert_eq!(v.dist(2), 1);
    assert_eq!(v.dist(5), 2);
    let w = SuuhaiHand([1, 0, 1, 0, 0, 0, 0, 0, 1]);
    assert_eq!(w.dist(3), 1);
    assert_eq!(w.dist(6), 3);
}

#[test]
fn suit_distance_zero_target() {
    let v = SuuhaiHand([4, 0, 2, 0, 3, 0, 0, 1, 4]);
    assert_eq!(v.dist(0), 0);
    assert_eq!(JihaiHand([4, 3, 2, 1, 0, 0, 1]).dist(0), 0);
}

#[test]
fn honor_distance_values() {
    let z = JihaiHand([2, 1, 0, 0, 0, 0, 0]);
    assert_eq!(z.dist(5), 2);
    assert_eq!(z.dist(2), 0);
    assert_eq!(z.dist(3), 1);
    assert_eq!(z.dist(6), 3);
    let full = JihaiHand([3, 3, 3, 3, 2, 0, 0]);
    assert_eq!(full.dist(14), 0);
}

#[test]
fn honor_distance_grows_as_counts_fall() {
    let z = JihaiHand([3, 2, 1, 0, 0, 0, 0]);
    let fewer = JihaiHand([3, 1, 1, 0, 0, 0, 0]);
    for k in [0u8, 2, 3, 5, 6, 8, 9, 11, 12, 14] {
        assert!(fewer.dist(k) >= z.dist(k));
    }
}

#[test]
fn hash_is_base_five() {
    assert_eq!(SuuhaiHand([1, 0, 0, 0, 0, 0, 0, 0, 0]).hash(), 1);
    assert_eq!(SuuhaiHand([0, 1, 0, 0, 0, 0, 0, 0, 0]).hash(), 5);
    assert_eq!(SuuhaiHand([4, 4, 4, 4, 4, 4, 4, 4, 4]).hash(), 1953124);
}

#[test]
fn counts_and_checks() {
    let v = SuuhaiHand([4, 0, 2, 0, 3, 0, 0, 1, 4]);
    assert_eq!(v.count(), 14);
    assert!(v.check());
    assert!(!SuuhaiHand([5, 0, 0, 0, 0, 0, 0, 0, 0]).check());
    assert!(!JihaiHand([0, 0, 0, 0, 0, 0, 5]).check());
    assert_eq!(JihaiHand([1, 2, 3, 0, 0, 0, 1]).count(), 7);
    assert_eq!(hand("123456789m123p123s1z").count(), 16);
}

#[test]
fn patterns_are_distinct_and_valid() {
    let ps = SuuhaiHand::all_partly_agari_pattern();
    assert!(ps.contains(&SuuhaiHand([1, 1, 1, 0, 0, 0, 0, 0, 0])));
    assert!(ps.contains(&SuuhaiHand([0, 0, 0, 0, 0, 0, 0, 0, 2])));
    assert!(ps.contains(&SuuhaiHand([4, 1, 1, 1, 1, 1, 1, 1, 3])));
    assert!(!ps.contains(&SuuhaiHand([1, 1, 0, 0, 0, 0, 0, 0, 0])));
    assert!(!ps.contains(&SuuhaiHand([0, 0, 0, 0, 0, 0, 0, 0, 0])));
    for (i, p) in ps.iter().enumerate() {
        assert!(p.check());
        assert!(p.count() > 0);
        assert!(!ps[i + 1..].contains(p));
    }
}

#[test]
fn parse_rejects_malformed_text() {
    assert!(Hand::parse("123").is_err());
    assert!(Hand::parse("8z").is_err());
    assert!(Hand::parse("0z").is_err());
    assert!(Hand::parse("11111m").is_err());
}

#[test]
fn parse_reads_red_five_and_honors() {
    let h = hand("0m7z");
    assert_eq!(h.tile(4), 1);
    assert_eq!(h.tile(33), 1);
    assert_eq!(h.count(), 2);
    let g = hand("1p2s");
    assert_eq!(g.tile(9), 1);
    assert_eq!(g.tile(19), 1);
}

#[test]
fn add_tile_refuses_a_fifth_copy() {
    let mut h = Hand::new();
    for _ in 0..4 {
        assert!(h.add_tile(27));
    }
    assert!(!h.add_tile(27));
    assert_eq!(h.tile(27), 4);
    assert!(h.is_valid());
}

#[test]
fn dictionary_matches_direct_distance() {
    let mut dict = DistanceDict::new();
    let v = SuuhaiHand([1, 0, 1, 0, 0, 0, 0, 0, 1]);
    assert_eq!(dict.dist(&v, 3), 1);
    assert_eq!(dict.dist(&v, 3), 1);
    assert_eq!(dict.dist(&v, 6), 3);
    assert_eq!(dict.dist(&v, 0), 0);
    let h = hand("1245m3699p2378s15z");
    assert_eq!(h.shanten_standard_with(&mut dict), h.shanten_standard());
}

#[test]
fn shanten_all_needs_thirteen_tiles() {
    let mut dict = DistanceDict::new();
    assert_eq!(hand("123m456p789s11z").shanten_all(&mut dict), None);
    assert_eq!(
        hand("123456789m123p123s1z").shanten_all(&mut dict),
        Some((0, 6, 8))
    );
}

#[test]
fn from_str_matches_parse() {
    let h: Hand = "19m19p19s1234567z".parse().unwrap();
    assert_eq!(h, hand("19m19p19s1234567z"));
    assert!("5".parse::<Hand>().is_err());
}

#[test]
fn tile_images_follow_the_text() {
    let images = tile_images("12m ?_3");
    assert_eq!(
        images,
        vec![
            TileImage::Tile { suit: 'm', digit: 1 },
            TileImage::Tile { suit: 'm', digit: 2 },
            TileImage::Gap,
            TileImage::Blank,
            TileImage::Back,
        ]
    );
    assert_eq!(tile_images("0p7z"), vec![
        TileImage::Tile { suit: 'p', digit: 0 },
        TileImage::Tile { suit: 'z', digit: 7 },
    ]);
}

fn honor_by_sorting(counts: [u8; 7], k: u8) -> u8 {
    if k == 0 {
        return 0;
    }
    let mut sorted = counts.to_vec();
    sorted.sort();
    sorted.reverse();
    let triplets = (k / 3) as usize;
    let pairs = if k % 3 == 2 { 1 } else { 0 };
    let mut r = 0;
    for i in 0..triplets {
        r += 3u8.saturating_sub(sorted[i]);
    }
    for i in triplets..triplets + pairs {
        r += 2u8.saturating_sub(sorted[i]);
    }
    r
}

#[test]
fn honor_distance_equals_sorted_slot_filling() {
    for code in 0..5u32.pow(7) {
        let mut counts = [0u8; 7];
        let mut c = code;
        for slot in counts.iter_mut() {
            *slot = (c % 5) as u8;
            c /= 5;
        }
        let z = JihaiHand(counts);
        for k in [0u8, 2, 3, 5, 6, 8, 9, 11, 12, 14] {
            assert_eq!(z.dist(k), honor_by_sorting(counts, k));
        }
    }
}

#[test]
fn from_arrays_keep_counts() {
    let v = SuuhaiHand::from(&[1, 2, 3, 4, 0, 0, 0, 0, 1]);
    assert_eq!(v, SuuhaiHand([1, 2, 3, 4, 0, 0, 0, 0, 1]));
    let z = JihaiHand::from(&[0, 0, 3, 0, 0, 2, 0]);
    assert_eq!(z.count(), 5);
}

#[test]
fn parse_rejects_unknown_characters() {
    assert!(Hand::parse("1x2m").is_err());
    assert!(Hand::parse("1m2").is_err());
    assert!("123m 456p".parse::<Hand>().is_err());
}

#[test]
fn from_str_reads_counts() {
    let h: Hand = "123456789m123p123s1z".parse().unwrap();
    assert_eq!(h.count(), 16);
    for i in 0..34 {
        let expected = if i <= 11 || (18..=20).contains(&i) || i == 27 { 1 } else { 0 };
        assert_eq!(h.tile(i), expected);
    }
    let r: Hand = "05p".parse().unwrap();
    assert_eq!(r.tile(13), 2);
    assert_eq!(r.count(), 2);
}

#[test]
fn from_str_rejects_bad_honors_and_fifth_copies() {
    for text in ["8z", "9z", "0z", "11111m", "55550m"] {
        assert!(text.parse::<Hand>().is_err());
    }
}

#[test]
fn is_complete_recognises_each_shape() {
    let mut dict = DistanceDict::new();
    assert!(hand("123m456p789s11122z").is_complete(&mut dict));
    assert!(hand("11223344556677z").is_complete(&mut dict));
    assert!(hand("19m19p19s12345677z").is_complete(&mut dict));
    assert!(!hand("123m456p789s1112z").is_complete(&mut dict));
    assert!(!hand("123m456p789s11123z").is_complete(&mut dict));
}

#[test]
fn counts_as_text() {
    assert_eq!(SuuhaiHand([1, 0, 12, 4, 0, 0, 0, 255, 3]).to_text(), "1 0 12 4 0 0 0 255 3");
    assert_eq!(JihaiHand([0, 0, 3, 0, 0, 2, 100]).to_text(), "0 0 3 0 0 2 100");
}

#[test]
fn shuffled_honors_keep_distances_and_shanten() {
    let z = JihaiHand([3, 0, 1, 2, 0, 0, 1]);
    let shuffled = JihaiHand([1, 2, 0, 0, 3, 1, 0]);
    for k in [0u8, 2, 3, 5, 6, 8, 9, 11, 12, 14] {
        assert_eq!(z.dist(k), shuffled.dist(k));
    }
    assert_eq!(
        hand("123m45p789s1113447z").shanten_standard(),
        hand("123m45p789s2225771z").shanten_standard()
    );
}
