use oxlide::parser::opacity::parse_opacity;
use oxlide::parser::{parse_deck, Block, Opacity};

fn ppb(s: &str) -> Option<u32> {
    parse_opacity(s).map(|o: Opacity| o.parts_per_billion)
}

#[test]
fn opacity_plain_decimals() {
    assert_eq!(ppb("0.5"), Some(500_000_000));
    assert_eq!(ppb("+0.25"), Some(250_000_000));
    assert_eq!(ppb(".5"), Some(500_000_000));
    assert_eq!(ppb("0."), Some(0));
    assert_eq!(ppb("1"), Some(1_000_000_000));
    assert_eq!(ppb("1.000"), Some(1_000_000_000));
    assert_eq!(ppb("0.0000000001"), Some(0));
    assert_eq!(ppb("0.123456789987"), Some(123_456_789));
}

#[test]
fn opacity_exponent_forms() {
    assert_eq!(ppb("1e-1"), Some(100_000_000));
    assert_eq!(ppb("5E-1"), Some(500_000_000));
    assert_eq!(ppb("25e-2"), Some(250_000_000));
    assert_eq!(ppb("1e0"), Some(1_000_000_000));
    assert_eq!(ppb("10e-1"), Some(1_000_000_000));
    assert_eq!(ppb("0.001e+2"), Some(100_000_000));
    assert_eq!(ppb("0e999999999999999999999999999999999999"), Some(0));
    assert_eq!(ppb("1e-999999999999999999999999999999999999"), Some(0));
    assert_eq!(ppb("1e999999999999999999999999999999999999"), None);
    assert_eq!(ppb("1e1"), None);
}

#[test]
fn opacity_values_that_round_to_one() {
    // 1 + 2^-24 is the largest value whose nearest f32 is 1.0.
    assert_eq!(ppb("1.0000000001"), Some(1_000_000_000));
    assert_eq!(ppb("1.000000059604644775390625"), Some(1_000_000_000));
    assert_eq!(ppb("1.000000059604644775390626"), None);
    assert_eq!(ppb("1.00000006"), None);
    assert_eq!(ppb("1.5"), None);
}

#[test]
fn opacity_negative_values_that_round_to_negative_zero() {
    assert_eq!(ppb("-0"), Some(0));
    assert_eq!(ppb("-0.0e5"), Some(0));
    assert_eq!(ppb("-1e-50"), Some(0));
    // 2^-150 exactly rounds to -0.0; anything larger in magnitude does not.
    let tiny = "7.00649232162408535461864791644958065640130970938257885878534141944895541342930300743319094181060791015625e-46";
    assert_eq!(ppb(&format!("-{}", tiny)), Some(0));
    assert_eq!(ppb("-7.0065e-46"), None);
    assert_eq!(ppb("-0.1"), None);
}

#[test]
fn opacity_rejects_what_is_no_number() {
    for s in ["", "+", "-", ".", "e5", "1e", "1e+", "1.2.3", "0x1", "inf", "NaN", "infinity", " 0.5", "0.5 ", "1_0"] {
        assert_eq!(ppb(s), None, "{:?}", s);
    }
}

#[test]
fn opacity_exponent_form_in_a_deck() {
    let deck = parse_deck("hero.png\n\topacity: 1e-1\n").expect("parses");
    let meta = deck.slides[0].cells[0]
        .blocks
        .iter()
        .find_map(|b| match b {
            Block::Image { meta, .. } => meta.clone(),
            _ => None,
        })
        .expect("image with metadata");
    assert_eq!(meta.opacity, Some(Opacity { parts_per_billion: 100_000_000 }));
}
