use monoterm::params::split_params;
use monoterm::sgr::{
    handle_token, skip_38_48, write_adjustment, write_arg, write_code, write_intensity,
    write_reverse,
};
use monoterm::{Attributes, Intensity};

const PLAIN: Attributes = Attributes {
    background_set: false,
    video_reversed: false,
    foreground_set: false,
    intensity: Intensity::Normal,
};

/// Reads the token at index `i` of `params` and returns the attributes, the
/// bytes written and the index of the next token.
fn read_token(start: Attributes, params: &[u8], i: usize) -> (Attributes, Vec<u8>, bool, usize) {
    let tokens = split_params(params);
    let mut attrs = start;
    let mut out = Vec::new();
    let mut any_written = false;
    let next = handle_token(&mut attrs, &tokens, i, &mut out, &mut any_written);
    (attrs, out, any_written, next)
}

#[test]
fn attributes_start_plain() {
    assert_eq!(Attributes::new(), PLAIN);
    assert!(!PLAIN.reversed());
    assert_eq!(PLAIN.shown_intensity(false), Intensity::Normal);
    assert_eq!(PLAIN.shown_intensity(true), Intensity::Normal);
}

#[test]
fn reverse_is_background_xor_request() {
    let mut a = PLAIN;
    a.background_set = true;
    assert!(a.reversed());
    a.video_reversed = true;
    assert!(!a.reversed());
    a.background_set = false;
    assert!(a.reversed());
}

#[test]
fn bold_stands_in_for_foreground_only_at_normal_intensity() {
    let mut a = PLAIN;
    a.foreground_set = true;
    assert_eq!(a.shown_intensity(false), Intensity::Normal);
    assert_eq!(a.shown_intensity(true), Intensity::High);
    a.intensity = Intensity::Low;
    assert_eq!(a.shown_intensity(true), Intensity::Low);
    a.intensity = Intensity::High;
    assert_eq!(a.shown_intensity(false), Intensity::High);
    assert_eq!(a.shown_intensity(true), Intensity::High);
}

#[test]
fn skip_palette_colour() {
    let tokens = split_params(b"38;5;196;4");
    assert_eq!(skip_38_48(&tokens, 1), 3);
}

#[test]
fn skip_rgb_colour() {
    let tokens = split_params(b"48;2;10;20;30;4");
    assert_eq!(skip_38_48(&tokens, 1), 5);
}

#[test]
fn skip_unknown_colour_kind_takes_one_token() {
    let tokens = split_params(b"38;7;4");
    assert_eq!(skip_38_48(&tokens, 1), 2);
    let tokens = split_params(b"38;x;4");
    assert_eq!(skip_38_48(&tokens, 1), 2);
    let tokens = split_params(b"38;;4");
    assert_eq!(skip_38_48(&tokens, 1), 2);
}

#[test]
fn skip_reads_the_kind_as_a_number() {
    let tokens = split_params(b"38;05;1;4");
    assert_eq!(skip_38_48(&tokens, 1), 3);
    let tokens = split_params(b"38;002;1;2;3;4");
    assert_eq!(skip_38_48(&tokens, 1), 5);
}

#[test]
fn skip_stops_at_the_end_of_the_list() {
    let tokens = split_params(b"38");
    assert_eq!(skip_38_48(&tokens, 1), 1);
    let tokens = split_params(b"38;5");
    assert_eq!(skip_38_48(&tokens, 1), 2);
    let tokens = split_params(b"38;2;10");
    assert_eq!(skip_38_48(&tokens, 1), 3);
    let tokens = split_params(b"38;2;10;20");
    assert_eq!(skip_38_48(&tokens, 1), 4);
    let tokens = split_params(b"38;2;10;20;30");
    assert_eq!(skip_38_48(&tokens, 1), 5);
}

#[test]
fn skip_past_the_end_stays() {
    let tokens = split_params(b"1;2");
    assert_eq!(skip_38_48(&tokens, 2), 2);
    assert_eq!(skip_38_48(&tokens, 7), 7);
}

#[test]
fn token_reset_clears_everything_and_is_sent_as_zero() {
    let start = Attributes {
        background_set: true,
        video_reversed: true,
        foreground_set: true,
        intensity: Intensity::Low,
    };
    for params in [&b"0"[..], b"", b"00", b"000"] {
        let (attrs, out, any, next) = read_token(start, params, 0);
        assert_eq!(attrs, PLAIN);
        assert_eq!(out, b"\x1b[0".to_vec());
        assert!(any);
        assert_eq!(next, 1);
    }
}

#[test]
fn token_intensities_are_absorbed() {
    let (attrs, out, any, _) = read_token(PLAIN, b"1", 0);
    assert_eq!(attrs.intensity, Intensity::High);
    assert!(out.is_empty() && !any);
    let (attrs, out, _, _) = read_token(PLAIN, b"2", 0);
    assert_eq!(attrs.intensity, Intensity::Low);
    assert!(out.is_empty());
    let (attrs, out, _, _) = read_token(attrs, b"22", 0);
    assert_eq!(attrs.intensity, Intensity::Normal);
    assert!(out.is_empty());
}

#[test]
fn token_reverse_video_is_absorbed() {
    let (attrs, out, _, _) = read_token(PLAIN, b"7", 0);
    assert!(attrs.video_reversed);
    assert!(out.is_empty());
    let (attrs, out, _, _) = read_token(attrs, b"27", 0);
    assert!(!attrs.video_reversed);
    assert!(out.is_empty());
}

#[test]
fn token_every_foreground_colour_sets_foreground() {
    let codes = (30..=37u8).chain(90..=97);
    for code in codes {
        let (attrs, out, any, next) = read_token(PLAIN, code.to_string().as_bytes(), 0);
        assert_eq!(attrs, Attributes { foreground_set: true, ..PLAIN });
        assert!(out.is_empty() && !any);
        assert_eq!(next, 1);
    }
}

#[test]
fn token_every_background_colour_sets_background() {
    let codes = (40..=47u8).chain(100..=107);
    for code in codes {
        let (attrs, out, any, next) = read_token(PLAIN, code.to_string().as_bytes(), 0);
        assert_eq!(attrs, Attributes { background_set: true, ..PLAIN });
        assert!(out.is_empty() && !any);
        assert_eq!(next, 1);
    }
}

#[test]
fn token_default_colours_clear_the_flags() {
    let start = Attributes { foreground_set: true, background_set: true, ..PLAIN };
    let (attrs, out, _, _) = read_token(start, b"39", 0);
    assert_eq!(attrs, Attributes { background_set: true, ..PLAIN });
    assert!(out.is_empty());
    let (attrs, out, _, _) = read_token(start, b"49", 0);
    assert_eq!(attrs, Attributes { foreground_set: true, ..PLAIN });
    assert!(out.is_empty());
}

#[test]
fn token_underline_colour_is_dropped_without_effect() {
    for params in [&b"58"[..], b"59"] {
        let (attrs, out, any, next) = read_token(PLAIN, params, 0);
        assert_eq!(attrs, PLAIN);
        assert!(out.is_empty() && !any);
        assert_eq!(next, 1);
    }
}

#[test]
fn token_extended_foreground_swallows_its_description() {
    let (attrs, out, _, next) = read_token(PLAIN, b"38;5;196;4", 0);
    assert_eq!(attrs, Attributes { foreground_set: true, ..PLAIN });
    assert!(out.is_empty());
    assert_eq!(next, 3);
    let (_, _, _, next) = read_token(PLAIN, b"38;2;10;20;30;4", 0);
    assert_eq!(next, 5);
}

#[test]
fn token_extended_background_swallows_its_description() {
    let (attrs, out, _, next) = read_token(PLAIN, b"48;5;196;4", 0);
    assert_eq!(attrs, Attributes { background_set: true, ..PLAIN });
    assert!(out.is_empty());
    assert_eq!(next, 3);
    let (_, _, _, next) = read_token(PLAIN, b"48;2;10;20;30;4", 0);
    assert_eq!(next, 5);
}

#[test]
fn token_other_codes_are_sent_as_they_came() {
    for params in [&b"4"[..], b"004", b"3", b"5", b"9", b"21", b"29", b"50", b"57", b"60", b"89",
        b"98", b"99", b"108", b"255"]
    {
        let (attrs, out, any, next) = read_token(PLAIN, params, 0);
        assert_eq!(attrs, PLAIN);
        let mut expected = b"\x1b[".to_vec();
        expected.extend_from_slice(params);
        assert_eq!(out, expected);
        assert!(any);
        assert_eq!(next, 1);
    }
}

#[test]
fn token_without_a_code_is_sent_as_it_came() {
    for params in [&b"256"[..], b"1000", b"4x", b"?25"] {
        let (attrs, out, any, next) = read_token(PLAIN, params, 0);
        assert_eq!(attrs, PLAIN);
        let mut expected = b"\x1b[".to_vec();
        expected.extend_from_slice(params);
        assert_eq!(out, expected);
        assert!(any);
        assert_eq!(next, 1);
    }
}

#[test]
fn token_at_a_later_index() {
    let (attrs, out, _, next) = read_token(PLAIN, b"4;41;5", 1);
    assert_eq!(attrs, Attributes { background_set: true, ..PLAIN });
    assert!(out.is_empty());
    assert_eq!(next, 2);
    let (_, out, _, next) = read_token(PLAIN, b"4;41;5", 2);
    assert_eq!(out, b"\x1b[5".to_vec());
    assert_eq!(next, 3);
}

#[test]
fn write_arg_leads_with_introducer_then_separators() {
    let mut out = b"ab".to_vec();
    let mut any = false;
    write_arg(&mut out, &mut any, b"4");
    assert_eq!(out, b"ab\x1b[4".to_vec());
    assert!(any);
    write_arg(&mut out, &mut any, b"53");
    assert_eq!(out, b"ab\x1b[4;53".to_vec());
    assert!(any);
    write_arg(&mut out, &mut any, b"");
    assert_eq!(out, b"ab\x1b[4;53;".to_vec());
}

#[test]
fn write_code_spells_decimal_without_leading_zeros() {
    for code in 0..=255u8 {
        let mut out = Vec::new();
        let mut any = true;
        write_code(&mut out, &mut any, code);
        assert_eq!(out, format!(";{}", code).into_bytes());
        let mut out = Vec::new();
        let mut any = false;
        write_code(&mut out, &mut any, code);
        assert_eq!(out, format!("\x1b[{}", code).into_bytes());
        assert!(any);
    }
}

#[test]
fn write_reverse_only_on_change() {
    for (before, after, expected) in
        [(false, false, &b""[..]), (true, true, b""), (false, true, b"\x1b[7"), (true, false, b"\x1b[27")]
    {
        let mut out = Vec::new();
        let mut any = false;
        write_reverse(&mut out, &mut any, before, after);
        assert_eq!(out, expected.to_vec());
        assert_eq!(any, before != after);
    }
}

#[test]
fn write_intensity_only_on_change() {
    let all = [Intensity::High, Intensity::Low, Intensity::Normal];
    for before in all {
        for after in all {
            let mut out = Vec::new();
            let mut any = true;
            write_intensity(&mut out, &mut any, before, after);
            let expected: &[u8] = if before == after {
                b""
            } else {
                match after {
                    Intensity::High => b";1",
                    Intensity::Low => b";2",
                    Intensity::Normal => b";22",
                }
            };
            assert_eq!(out, expected.to_vec());
            assert!(any);
        }
    }
}

#[test]
fn write_adjustment_reverse_before_intensity() {
    let after = Attributes { background_set: true, intensity: Intensity::Low, ..PLAIN };
    let mut out = Vec::new();
    let mut any = false;
    write_adjustment(&mut out, &mut any, PLAIN, after, false);
    assert_eq!(out, b"\x1b[7;2".to_vec());
    assert!(any);

    let mut out = Vec::new();
    let mut any = true;
    write_adjustment(&mut out, &mut any, after, PLAIN, false);
    assert_eq!(out, b";27;22".to_vec());
}

#[test]
fn write_adjustment_nothing_without_change() {
    let a = Attributes { background_set: true, video_reversed: true, ..PLAIN };
    let mut out = Vec::new();
    let mut any = false;
    write_adjustment(&mut out, &mut any, PLAIN, a, true);
    assert!(out.is_empty());
    assert!(!any);
}

#[test]
fn write_adjustment_bold_for_foreground() {
    let after = Attributes { foreground_set: true, ..PLAIN };
    let mut out = Vec::new();
    let mut any = false;
    write_adjustment(&mut out, &mut any, PLAIN, after, true);
    assert_eq!(out, b"\x1b[1".to_vec());
    let mut out = Vec::new();
    let mut any = false;
    write_adjustment(&mut out, &mut any, PLAIN, after, false);
    assert!(out.is_empty());
    let mut out = Vec::new();
    let mut any = false;
    write_adjustment(&mut out, &mut any, after, PLAIN, true);
    assert_eq!(out, b"\x1b[22".to_vec());
}
