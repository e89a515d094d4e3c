use sdr_acars::label_parsers::{byte_at, decode_label, slice4, Oooi};

#[test]
fn oooi_default_is_all_none() {
    let o = Oooi::default();
    assert!(!o.has_any());
    assert!(o.sa.is_none());
    assert!(o.da.is_none());
    assert!(o.gout.is_none());
    assert!(o.woff.is_none());
    assert!(o.won.is_none());
    assert!(o.gin.is_none());
    assert!(o.eta.is_none());
}

#[test]
fn oooi_has_any_true_when_any_field_set() {
    let cases = [
        Oooi {
            sa: Some("KORD".to_string()),
            ..Default::default()
        },
        Oooi {
            da: Some("KSFO".to_string()),
            ..Default::default()
        },
        Oooi {
            gout: Some("0830".to_string()),
            ..Default::default()
        },
        Oooi {
            woff: Some("0945".to_string()),
            ..Default::default()
        },
        Oooi {
            won: Some("1020".to_string()),
            ..Default::default()
        },
        Oooi {
            gin: Some("1245".to_string()),
            ..Default::default()
        },
        Oooi {
            eta: Some("0830".to_string()),
            ..Default::default()
        },
    ];
    for o in &cases {
        assert!(o.has_any(), "has_any should be true for {o:?}");
    }
}

#[test]
fn slice4_none_when_slice_starts_inside_multibyte_codepoint() {
    // U+00E9 (é) is 2 bytes in UTF-8: [0xC3, 0xA9]. A slice
    // starting at byte 1 lands inside the codepoint — text.get
    // returns None, which slice4 propagates. ACARS payloads are
    // 7-bit ASCII so this is unreachable in practice, but the
    // doc promises bounds-safety either way.
    let s = "\u{00E9}XYZW"; // bytes: 0xC3 0xA9 'X' 'Y' 'Z' 'W'
    assert!(slice4(s, 1).is_none());
}

#[test]
fn slice4_returns_none_on_short_text() {
    assert!(slice4("KO", 0).is_none());
    assert!(slice4("KORD", 1).is_none()); // 1..5 needs 5 chars
}

#[test]
fn slice4_extracts_four_chars() {
    let s = slice4("KORD0830", 0).unwrap();
    assert_eq!(s.as_str(), "KORD");
    let s = slice4("KORD0830", 4).unwrap();
    assert_eq!(s.as_str(), "0830");
}

#[test]
fn byte_at_returns_none_on_short_text() {
    assert_eq!(byte_at("AB", 5), None);
}

#[test]
fn byte_at_extracts_byte() {
    assert_eq!(byte_at("ABC", 1), Some(b'B'));
}

#[test]
fn decode_label_unknown_returns_none() {
    assert!(decode_label([b'X', b'X'], "anything").is_none());
    assert!(decode_label([b'Z', b'Z'], "").is_none());
}

#[test]
fn label_q1_extracts_six_fields() {
    // Offsets: sa(0..4) gout(4..8) woff(8..12) won(12..16)
    //          gin(16..20) skip(20..24) da(24..28)
    let txt = "KORD08300945102012450000KSFO";
    let o = decode_label([b'Q', b'1'], txt).unwrap();
    assert_eq!(o.sa.as_deref(), Some("KORD"));
    assert_eq!(o.gout.as_deref(), Some("0830"));
    assert_eq!(o.woff.as_deref(), Some("0945"));
    assert_eq!(o.won.as_deref(), Some("1020"));
    assert_eq!(o.gin.as_deref(), Some("1245"));
    assert_eq!(o.da.as_deref(), Some("KSFO"));
    assert!(o.eta.is_none());
}

#[test]
fn label_q2_extracts_sa_and_eta() {
    let txt = "KORD0830";
    let o = decode_label([b'Q', b'2'], txt).unwrap();
    assert_eq!(o.sa.as_deref(), Some("KORD"));
    assert_eq!(o.eta.as_deref(), Some("0830"));
}

#[test]
fn label_qa_extracts_sa_and_gout() {
    let txt = "KORD0830";
    let o = decode_label([b'Q', b'A'], txt).unwrap();
    assert_eq!(o.sa.as_deref(), Some("KORD"));
    assert_eq!(o.gout.as_deref(), Some("0830"));
}

#[test]
fn label_qb_extracts_sa_and_woff() {
    let txt = "KORD0945";
    let o = decode_label([b'Q', b'B'], txt).unwrap();
    assert_eq!(o.sa.as_deref(), Some("KORD"));
    assert_eq!(o.woff.as_deref(), Some("0945"));
}

#[test]
fn label_qc_extracts_sa_and_won() {
    let txt = "KORD1020";
    let o = decode_label([b'Q', b'C'], txt).unwrap();
    assert_eq!(o.sa.as_deref(), Some("KORD"));
    assert_eq!(o.won.as_deref(), Some("1020"));
}

#[test]
fn label_qd_extracts_sa_and_gin() {
    let txt = "KORD1245";
    let o = decode_label([b'Q', b'D'], txt).unwrap();
    assert_eq!(o.sa.as_deref(), Some("KORD"));
    assert_eq!(o.gin.as_deref(), Some("1245"));
}

#[test]
fn label_qe_extracts_sa_gout_da() {
    let txt = "KORD0830KSFO";
    let o = decode_label([b'Q', b'E'], txt).unwrap();
    assert_eq!(o.sa.as_deref(), Some("KORD"));
    assert_eq!(o.gout.as_deref(), Some("0830"));
    assert_eq!(o.da.as_deref(), Some("KSFO"));
}

#[test]
fn label_qf_extracts_sa_woff_da() {
    let txt = "KORD0945KSFO";
    let o = decode_label([b'Q', b'F'], txt).unwrap();
    assert_eq!(o.sa.as_deref(), Some("KORD"));
    assert_eq!(o.woff.as_deref(), Some("0945"));
    assert_eq!(o.da.as_deref(), Some("KSFO"));
}

#[test]
fn label_qg_extracts_sa_gout_gin() {
    let txt = "KORD08301245";
    let o = decode_label([b'Q', b'G'], txt).unwrap();
    assert_eq!(o.sa.as_deref(), Some("KORD"));
    assert_eq!(o.gout.as_deref(), Some("0830"));
    assert_eq!(o.gin.as_deref(), Some("1245"));
}

#[test]
fn label_qh_extracts_sa_and_gout() {
    let txt = "KORD0830";
    let o = decode_label([b'Q', b'H'], txt).unwrap();
    assert_eq!(o.sa.as_deref(), Some("KORD"));
    assert_eq!(o.gout.as_deref(), Some("0830"));
}

#[test]
fn q_family_short_text_returns_none() {
    // All Q-family parsers should bail when text is too short
    // for even the first slice4.
    for second in [
        b'1', b'2', b'A', b'B', b'C', b'D', b'E', b'F', b'G', b'H', b'K', b'L', b'M', b'N',
        b'P', b'Q', b'R', b'S', b'T',
    ] {
        assert!(
            decode_label([b'Q', second], "AB").is_none(),
            "Q{} should be None for short text",
            second as char
        );
    }
}

#[test]
fn label_qk_extracts_sa_won_da() {
    let txt = "KORD1020KSFO";
    let o = decode_label([b'Q', b'K'], txt).unwrap();
    assert_eq!(o.sa.as_deref(), Some("KORD"));
    assert_eq!(o.won.as_deref(), Some("1020"));
    assert_eq!(o.da.as_deref(), Some("KSFO"));
}

#[test]
fn label_ql_extracts_da_gin_sa() {
    // Offsets: da(0..4) skip(4..8) gin(8..12) skip(12) sa(13..17)
    let txt = "KSFO____1245_KORD";
    let o = decode_label([b'Q', b'L'], txt).unwrap();
    assert_eq!(o.da.as_deref(), Some("KSFO"));
    assert_eq!(o.gin.as_deref(), Some("1245"));
    assert_eq!(o.sa.as_deref(), Some("KORD"));
}

#[test]
fn label_qm_extracts_da_and_sa() {
    // Offsets: da(0..4) skip(4..8) sa(8..12)
    let txt = "KSFO____KORD";
    let o = decode_label([b'Q', b'M'], txt).unwrap();
    assert_eq!(o.da.as_deref(), Some("KSFO"));
    assert_eq!(o.sa.as_deref(), Some("KORD"));
}

#[test]
fn label_qn_extracts_da_and_eta() {
    // Offsets: skip(0..4) da(4..8) eta(8..12)
    let txt = "____KSFO0830";
    let o = decode_label([b'Q', b'N'], txt).unwrap();
    assert_eq!(o.da.as_deref(), Some("KSFO"));
    assert_eq!(o.eta.as_deref(), Some("0830"));
}

#[test]
fn label_qp_extracts_sa_da_gout() {
    let txt = "KORDKSFO0830";
    let o = decode_label([b'Q', b'P'], txt).unwrap();
    assert_eq!(o.sa.as_deref(), Some("KORD"));
    assert_eq!(o.da.as_deref(), Some("KSFO"));
    assert_eq!(o.gout.as_deref(), Some("0830"));
}

#[test]
fn label_qq_extracts_sa_da_woff() {
    let txt = "KORDKSFO0945";
    let o = decode_label([b'Q', b'Q'], txt).unwrap();
    assert_eq!(o.sa.as_deref(), Some("KORD"));
    assert_eq!(o.da.as_deref(), Some("KSFO"));
    assert_eq!(o.woff.as_deref(), Some("0945"));
}

#[test]
fn label_qr_extracts_sa_da_won() {
    let txt = "KORDKSFO1020";
    let o = decode_label([b'Q', b'R'], txt).unwrap();
    assert_eq!(o.sa.as_deref(), Some("KORD"));
    assert_eq!(o.da.as_deref(), Some("KSFO"));
    assert_eq!(o.won.as_deref(), Some("1020"));
}

#[test]
fn label_qs_extracts_sa_da_gin() {
    let txt = "KORDKSFO1245";
    let o = decode_label([b'Q', b'S'], txt).unwrap();
    assert_eq!(o.sa.as_deref(), Some("KORD"));
    assert_eq!(o.da.as_deref(), Some("KSFO"));
    assert_eq!(o.gin.as_deref(), Some("1245"));
}

#[test]
fn label_qt_extracts_sa_da_gout_gin() {
    let txt = "KORDKSFO08301245";
    let o = decode_label([b'Q', b'T'], txt).unwrap();
    assert_eq!(o.sa.as_deref(), Some("KORD"));
    assert_eq!(o.da.as_deref(), Some("KSFO"));
    assert_eq!(o.gout.as_deref(), Some("0830"));
    assert_eq!(o.gin.as_deref(), Some("1245"));
}

#[test]
fn q_unknown_second_char_returns_none() {
    // Q4 / QI / QJ / QU etc. don't have parsers.
    assert!(decode_label([b'Q', b'4'], "anything").is_none());
    assert!(decode_label([b'Q', b'I'], "anything").is_none());
    assert!(decode_label([b'Q', b'J'], "anything").is_none());
    assert!(decode_label([b'Q', b'U'], "anything").is_none());
}

#[test]
fn label_10_extracts_da_and_eta() {
    // Offsets: prefix "ARR01" (0..5), skip 5..12, da(12..16),
    // eta(16..20).
    let txt = "ARR01_______KSFO0830";
    let o = decode_label([b'1', b'0'], txt).unwrap();
    assert_eq!(o.da.as_deref(), Some("KSFO"));
    assert_eq!(o.eta.as_deref(), Some("0830"));
}

#[test]
fn label_10_no_arr01_prefix_returns_none() {
    assert!(decode_label([b'1', b'0'], "XXX01_______KSFO0830").is_none());
}

#[test]
fn label_11_extracts_da_and_eta() {
    // Offsets: skip 0..13, "/DS " at 13..17, da(17..21),
    // "/ETA " at 21..26, eta(26..30).
    let txt = "_____________/DS KSFO/ETA 0830";
    let o = decode_label([b'1', b'1'], txt).unwrap();
    assert_eq!(o.da.as_deref(), Some("KSFO"));
    assert_eq!(o.eta.as_deref(), Some("0830"));
}

#[test]
fn label_11_missing_separator_returns_none() {
    assert!(
        decode_label([b'1', b'1'], "_____________/DS KSFO/XXX 0830").is_none(),
        "missing /ETA separator"
    );
}

#[test]
fn label_12_extracts_sa_and_da_with_comma_at_offset_4() {
    let txt = "KORD,KSFO";
    let o = decode_label([b'1', b'2'], txt).unwrap();
    assert_eq!(o.sa.as_deref(), Some("KORD"));
    assert_eq!(o.da.as_deref(), Some("KSFO"));
}

#[test]
fn label_12_no_comma_returns_none() {
    assert!(decode_label([b'1', b'2'], "KORD-KSFO").is_none());
}

#[test]
fn label_15_extracts_sa_and_da_after_fst01_prefix() {
    // Offsets: "FST01" 0..5, sa(5..9), da(9..13).
    let txt = "FST01KORDKSFO";
    let o = decode_label([b'1', b'5'], txt).unwrap();
    assert_eq!(o.sa.as_deref(), Some("KORD"));
    assert_eq!(o.da.as_deref(), Some("KSFO"));
}

#[test]
fn label_17_extracts_eta_sa_da_with_eta_prefix_and_commas() {
    // Offsets: "ETA " 0..4, eta(4..8), comma(8), sa(9..13),
    // comma(13), da(14..18).
    let txt = "ETA 0830,KORD,KSFO";
    let o = decode_label([b'1', b'7'], txt).unwrap();
    assert_eq!(o.eta.as_deref(), Some("0830"));
    assert_eq!(o.sa.as_deref(), Some("KORD"));
    assert_eq!(o.da.as_deref(), Some("KSFO"));
}

#[test]
fn label_1g_extracts_sa_and_da_with_comma_at_offset_4() {
    let txt = "KORD,KSFO";
    let o = decode_label([b'1', b'G'], txt).unwrap();
    assert_eq!(o.sa.as_deref(), Some("KORD"));
    assert_eq!(o.da.as_deref(), Some("KSFO"));
}

#[test]
fn label_20_extracts_sa_da_after_rst_prefix() {
    // Offsets: "RST" 0..3, skip 3..22, sa(22..26), da(26..30).
    let txt = "RST___________________KORDKSFO";
    let o = decode_label([b'2', b'0'], txt).unwrap();
    assert_eq!(o.sa.as_deref(), Some("KORD"));
    assert_eq!(o.da.as_deref(), Some("KSFO"));
}

#[test]
fn label_20_no_rst_prefix_returns_none() {
    assert!(decode_label([b'2', b'0'], "XXX___________________KORDKSFO").is_none());
}

#[test]
fn label_21_extracts_sa_da_with_commas() {
    // Offsets: skip 0..6, comma(6), sa(7..11), comma(11), da(12..16).
    let txt = "______,KORD,KSFO";
    let o = decode_label([b'2', b'1'], txt).unwrap();
    assert_eq!(o.sa.as_deref(), Some("KORD"));
    assert_eq!(o.da.as_deref(), Some("KSFO"));
}

#[test]
fn label_26_extracts_sa_da_eta_through_multiline_walk() {
    // Layout:
    //   line 1: VER/077 ...
    //   line 2: SCH/<anything>/<sa><skip><da><...>
    //   line 3: ETA/<eta>
    let txt = "VER/077\nSCH/X/KORD KSFO\nETA/0830";
    let o = decode_label([b'2', b'6'], txt).unwrap();
    assert_eq!(o.sa.as_deref(), Some("KORD"));
    assert_eq!(o.da.as_deref(), Some("KSFO"));
    assert_eq!(o.eta.as_deref(), Some("0830"));
}

#[test]
fn label_26_without_eta_line_still_succeeds() {
    // No third line — sa/da only.
    let txt = "VER/077\nSCH/X/KORD KSFO";
    let o = decode_label([b'2', b'6'], txt).unwrap();
    assert_eq!(o.sa.as_deref(), Some("KORD"));
    assert_eq!(o.da.as_deref(), Some("KSFO"));
    assert!(o.eta.is_none());
}

#[test]
fn label_26_no_ver_077_prefix_returns_none() {
    assert!(decode_label([b'2', b'6'], "VER/078\nSCH/X/KORD KSFO").is_none());
}

#[test]
fn label_26_second_line_not_eta_returns_none() {
    // A second line that is present but does not start with "ETA/"
    // rejects the record.
    let txt = "VER/077\nSCH/X/KORD KSFO\nXXX/0830";
    assert!(decode_label([b'2', b'6'], txt).is_none());
}

#[test]
fn label_rb_aliases_label_26() {
    // Same fixture as label_26's "all three lines" test.
    let txt = "VER/077\nSCH/X/KORD KSFO\nETA/0830";
    let o = decode_label([b'R', b'B'], txt).unwrap();
    assert_eq!(o.sa.as_deref(), Some("KORD"));
    assert_eq!(o.da.as_deref(), Some("KSFO"));
    assert_eq!(o.eta.as_deref(), Some("0830"));
}

#[test]
fn label_2n_extracts_sa_da_after_tko01() {
    // Offsets: "TKO01" 0..5, skip 5..11, '/' at 11, skip
    // 12..20, sa(20..24), da(24..28).
    let txt = "TKO01______/________KORDKSFO";
    let o = decode_label([b'2', b'N'], txt).unwrap();
    assert_eq!(o.sa.as_deref(), Some("KORD"));
    assert_eq!(o.da.as_deref(), Some("KSFO"));
}

#[test]
fn label_2z_extracts_da_only() {
    let txt = "KSFO";
    let o = decode_label([b'2', b'Z'], txt).unwrap();
    assert_eq!(o.da.as_deref(), Some("KSFO"));
    assert!(o.sa.is_none());
}

#[test]
fn label_33_extracts_sa_da_with_three_commas() {
    // Offsets: comma(0), skip 1..20, comma(20), sa(21..25),
    // comma(25), da(26..30).
    let txt = ",___________________,KORD,KSFO";
    let o = decode_label([b'3', b'3'], txt).unwrap();
    assert_eq!(o.sa.as_deref(), Some("KORD"));
    assert_eq!(o.da.as_deref(), Some("KSFO"));
}

#[test]
fn label_39_extracts_sa_da_after_gta01_with_slash() {
    // Offsets: "GTA01" 0..5, skip 5..15, '/' at 15, skip
    // 16..24, sa(24..28), da(28..32).
    let txt = "GTA01__________/________KORDKSFO";
    let o = decode_label([b'3', b'9'], txt).unwrap();
    assert_eq!(o.sa.as_deref(), Some("KORD"));
    assert_eq!(o.da.as_deref(), Some("KSFO"));
}

#[test]
fn label_44_extracts_da_and_eta_with_pos02_prefix() {
    // Layout (after no "00" shift):
    //   POS0 (0..4)
    //   '2'  (4)
    //   skip 5..23
    //   ',' (23)
    //   da   (24..28)
    //   ','  (28)
    //   eta1 (29..33) — overwritten
    //   ','  (33)
    //   skip 34..38
    //   ','  (38)
    //   skip 39..43
    //   ','  (43)
    //   eta2 (44..48) — final
    let txt = "POS02__________________,KSFO,XXXX,____,____,0830";
    let o = decode_label([b'4', b'4'], txt).unwrap();
    assert_eq!(o.da.as_deref(), Some("KSFO"));
    assert_eq!(o.eta.as_deref(), Some("0830"));
}

#[test]
fn label_44_with_00_prefix_shifts_base() {
    let txt = "00POS02__________________,KSFO,XXXX,____,____,0830";
    let o = decode_label([b'4', b'4'], txt).unwrap();
    assert_eq!(o.da.as_deref(), Some("KSFO"));
    assert_eq!(o.eta.as_deref(), Some("0830"));
}

#[test]
fn label_44_unsupported_kind_byte_returns_none() {
    // txt[4] must be '2' or '3'; '5' rejected.
    assert!(
        decode_label(
            [b'4', b'4'],
            "POS05__________________,KSFO,XXXX,____,____,0830"
        )
        .is_none()
    );
}

#[test]
fn label_45_extracts_da_after_a_prefix() {
    let txt = "AKSFO";
    let o = decode_label([b'4', b'5'], txt).unwrap();
    assert_eq!(o.da.as_deref(), Some("KSFO"));
}

#[test]
fn label_45_no_a_prefix_returns_none() {
    assert!(decode_label([b'4', b'5'], "BKSFO").is_none());
}

#[test]
fn label_80_extracts_da_after_dest_prefix() {
    // Offsets: skip 0..6, "/DEST" 6..11, skip 11, da(12..16).
    // Only the five bytes "/DEST" are compared.
    let txt = "______/DEST_KSFO";
    let o = decode_label([b'8', b'0'], txt).unwrap();
    assert_eq!(o.da.as_deref(), Some("KSFO"));
}

#[test]
fn label_80_no_dest_prefix_returns_none() {
    assert!(decode_label([b'8', b'0'], "______/SRCE_KSFO").is_none());
}

#[test]
fn label_83_extracts_sa_and_da_with_comma() {
    let txt = "KORD,KSFO";
    let o = decode_label([b'8', b'3'], txt).unwrap();
    assert_eq!(o.sa.as_deref(), Some("KORD"));
    assert_eq!(o.da.as_deref(), Some("KSFO"));
}

#[test]
fn label_8d_extracts_sa_da_with_three_commas() {
    // Offsets: skip 0..4, ',' at 4, skip 5..35, ',' at 35,
    // sa(36..40), ',' at 40, da(41..45).
    let txt = "____,______________________________,KORD,KSFO";
    let o = decode_label([b'8', b'D'], txt).unwrap();
    assert_eq!(o.sa.as_deref(), Some("KORD"));
    assert_eq!(o.da.as_deref(), Some("KSFO"));
}

#[test]
fn label_8e_extracts_da_and_eta_with_comma() {
    // Offsets: da(0..4), ',' at 4, eta(5..9).
    let txt = "KSFO,0830";
    let o = decode_label([b'8', b'E'], txt).unwrap();
    assert_eq!(o.da.as_deref(), Some("KSFO"));
    assert_eq!(o.eta.as_deref(), Some("0830"));
}

#[test]
fn label_8s_extracts_da_and_eta_with_comma() {
    let txt = "KSFO,0830";
    let o = decode_label([b'8', b'S'], txt).unwrap();
    assert_eq!(o.da.as_deref(), Some("KSFO"));
    assert_eq!(o.eta.as_deref(), Some("0830"));
}

#[test]
fn eight_family_unknown_second_char_returns_none() {
    assert!(decode_label([b'8', b'1'], "anything").is_none());
    assert!(decode_label([b'8', b'X'], "anything").is_none());
}

#[test]
fn every_field_is_a_four_byte_window_of_the_text() {
    let txt = "VER/077\nSCH/X/KORD KSFO\nETA/0830";
    let o = decode_label([b'2', b'6'], txt).unwrap();
    for f in [&o.sa, &o.da, &o.eta].into_iter().flatten() {
        assert_eq!(f.len(), 4);
        assert!(txt.contains(f.as_str()));
    }
}

#[test]
fn texts_shorter_than_four_bytes_decode_to_nothing() {
    for label in [*b"Q1", *b"2Z", *b"10", *b"44", *b"26", *b"RB", *b"8E"] {
        for txt in ["", "A", "AB", "ABC"] {
            assert!(decode_label(label, txt).is_none());
        }
    }
}
