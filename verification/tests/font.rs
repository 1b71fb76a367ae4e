use koboterm::font::{BdfFile, Family, Font};

/// A small 8x16 font: a capital A filling the cell, a vertical bar, a
/// full-cell glyph with its own offsets, a 4x4 block whose box is smaller than
/// the font's, and one wider than the cell.
fn tiny_bdf() -> String {
    let mut s = String::new();
    s.push_str("STARTFONT 2.1\nFONT -test-tiny\nSIZE 16 75 75\nFONTBOUNDINGBOX 8 16 0 -4\n");
    s.push_str("STARTPROPERTIES 1\nFONT_ASCENT 12\nENDPROPERTIES\nCHARS 3\n");
    s.push_str("STARTCHAR A\nENCODING 65\nSWIDTH 500 0\nDWIDTH 8 0\nBBX 8 16 0 -4\nBITMAP\n");
    for r in ["00", "00", "18", "24", "42", "42", "7E", "42", "42", "42", "42", "00", "00", "00", "00", "00"] {
        s.push_str(r);
        s.push('\n');
    }
    s.push_str("ENDCHAR\n");
    s.push_str("STARTCHAR bar\nENCODING 9474\nBBX 8 16 0 -4\nBITMAP\n");
    for _ in 0..16 {
        s.push_str("10\n");
    }
    s.push_str("ENDCHAR\n");
    s.push_str("STARTCHAR block\nENCODING 66\nBBX 4 4 2 0\nBITMAP\nF0\nF0\nF0\nF0\nENDCHAR\n");
    s.push_str("STARTCHAR shifted\nENCODING 68\nBBX 8 16 2 -2\nBITMAP\n");
    for _ in 0..16 {
        s.push_str("F0\n");
    }
    s.push_str("ENDCHAR\n");
    s.push_str("STARTCHAR toowide\nENCODING 67\nBBX 9 16 0 -4\nBITMAP\n");
    for _ in 0..16 {
        s.push_str("FF80\n");
    }
    s.push_str("ENDCHAR\nENDFONT\n");
    s
}

fn render(f: &Font, ch: char) -> Vec<String> {
    f.glyph(ch)
        .rows
        .iter()
        .map(|r| (0..f.width).map(|x| if r & (1 << (31 - x)) != 0 { '#' } else { '.' }).collect())
        .collect()
}

#[test]
fn tiny_font_parses_cell_and_glyphs() {
    let f = Font::from_bdf(&tiny_bdf(), "");
    assert_eq!((f.width, f.height), (8, 16));
    assert_eq!(f.len(), 3);
    assert!(!f.is_empty());
    assert!(f.has('A') && f.has('\u{2502}') && f.has('D'));
    assert!(!f.has('B'), "a glyph whose box is smaller than the font's is skipped");
    assert!(!f.has('C'), "a glyph wider than the cell is skipped");
    let a = render(&f, 'A');
    assert_eq!(a.len(), 16);
    assert_eq!(a[0], "........");
    assert_eq!(a[6], ".######.");
    assert_eq!(f.glyph('A').rows[6], 0x7E00_0000);
}

#[test]
fn vertical_bar_fills_every_row() {
    let f = Font::from_bdf(&tiny_bdf(), "");
    assert!(render(&f, '\u{2502}').iter().all(|r| r == "...#...."));
}

#[test]
fn full_box_is_placed_by_its_offsets() {
    let f = Font::from_bdf(&tiny_bdf(), "");
    // top = (16 - 16) - (-2 - -4) = -2: the first two bitmap rows fall off;
    // shifted right by 2.
    let rows = &f.glyph('D').rows;
    assert_eq!(rows.len(), 16);
    for (y, r) in rows.iter().enumerate() {
        let want = if y < 14 { 0x3C00_0000 } else { 0 };
        assert_eq!(*r, want, "row {y}");
    }
}

#[test]
fn missing_glyph_is_the_hollow_box() {
    let f = Font::from_bdf(&tiny_bdf(), "");
    assert_eq!(f.glyph('\u{10FFFF}'), f.fallback());
    assert_eq!(f.glyph('B'), f.fallback());
    let rows = &f.fallback().rows;
    assert_eq!(rows.len(), 16);
    assert_eq!(rows[0], 0);
    assert_eq!(rows[1], 0);
    assert_eq!(rows[2], 0xFF00_0000);
    for y in 3..13 {
        assert_eq!(rows[y], 0x8100_0000, "row {y}");
    }
    assert_eq!(rows[13], 0xFF00_0000);
    assert_eq!(rows[14], 0);
    assert_eq!(rows[15], 0);
}

#[test]
fn doubling_pairs_rows_and_columns() {
    let f = Font::from_bdf(&tiny_bdf(), "").scaled_2x();
    assert_eq!((f.width, f.height), (16, 32));
    let a = render(&f, 'A');
    assert_eq!(a.len(), 32);
    for y in 0..16 {
        assert_eq!(a[2 * y], a[2 * y + 1], "rows come in identical pairs");
    }
    assert_eq!(a[12], "..############..");
    assert_eq!(f.glyph('A').rows[12], 0x3FFC_0000);
    assert_eq!(f.fallback().rows[4], 0xFFFF_0000);
    assert_eq!(f.len(), 3);
}

#[test]
fn malformed_fonts_are_refused() {
    assert!(Font::parse_bdf("FONTBOUNDINGBOX 8 x 0 0\n").is_none());
    assert!(Font::parse_bdf("FONTBOUNDINGBOX 8 16 0\n").is_none());
    assert!(Font::parse_bdf("STARTFONT 2.1\nENDFONT\n").is_none(), "no bounding box");
    assert!(Font::parse_bdf("FONTBOUNDINGBOX 33 16 0 0\n").is_none(), "wider than 32");
    let bad_row = "FONTBOUNDINGBOX 8 16 0 0\nSTARTCHAR a\nENCODING 97\nBBX 8 1 0 0\nBITMAP\n123456789\nENDCHAR\n";
    assert!(Font::parse_bdf(bad_row).is_none());
    assert!(Font::parse_bdf("FONTBOUNDINGBOX 8 16 0 0\n").is_some());
}

#[test]
fn hex_fallbacks_fill_gaps_only() {
    let mut f = Font::from_bdf(&tiny_bdf(), "");
    let hex = format!("2026:{}DB0000\n0041:{}\nzz:00\n", "0".repeat(26), "F".repeat(32));
    assert!(f.try_add_hex_fallbacks(&hex));
    assert!(f.has('\u{2026}'));
    assert_eq!(f.glyph('\u{2026}').rows[13], 0xDB00_0000);
    assert_eq!(f.glyph('\u{2026}').rows[12], 0);
    assert_eq!(f.glyph('A').rows[6], 0x7E00_0000, "the font's own A stays");
    assert_eq!(f.len(), 4);
}

#[test]
fn wide_hex_glyph_is_squeezed_into_a_narrow_cell() {
    let mut f = Font::from_bdf(&tiny_bdf(), "");
    // 16 wide: every source column pair maps onto one cell column.
    let hex = format!("4E00:{}\n", "FFFF".repeat(16));
    f.add_hex_fallbacks(&hex);
    assert!(f.glyph('\u{4E00}').rows.iter().all(|r| *r == 0xFF00_0000));
}

#[test]
fn hex_glyph_that_cannot_fit_leaves_the_font_alone() {
    let mut f = Font::from_bdf("FONTBOUNDINGBOX 8 12 0 0\n", "");
    assert!(!f.try_add_hex_fallbacks(&format!("2026:{}DB0000\n", "0".repeat(26))));
    assert!(!f.has('\u{2026}'));
    assert!(f.is_empty());
}

#[test]
fn families_name_parse_and_steps() {
    assert_eq!(Family::Spleen.name(), "Spleen");
    assert_eq!(Family::Terminus.name(), "Terminus");
    assert_eq!(Family::parse("TERMINUS"), Family::Terminus);
    assert_eq!(Family::parse("terminus"), Family::Terminus);
    assert_eq!(Family::parse("helvetica"), Family::Spleen);
    assert_eq!(Family::Spleen.size_count(), 5);
    assert_eq!(Family::Terminus.size_count(), 7);
    assert_eq!(Family::Spleen.step(3), (BdfFile::Spleen12x24, 2));
    assert_eq!(Family::Terminus.step(4), (BdfFile::Terminus16x32, 1));
    assert_eq!(Family::Terminus.step(99), (BdfFile::Terminus16x32, 2));
}

#[test]
fn cell_size_without_parsing() {
    let text = "STARTFONT 2.1\nFONTBOUNDINGBOX 12 24 0 -5\n";
    assert_eq!(Family::Spleen.cell_size(3, text), Some((24, 48)));
    assert_eq!(Family::Spleen.cell_size(1, text), Some((12, 24)));
    assert_eq!(Family::Terminus.cell_size(0, "no box here\n"), Some((8, 16)));
    assert_eq!(Family::Terminus.cell_size(0, "FONTBOUNDINGBOX 8\n"), None);
    assert_eq!(Family::Terminus.cell_size(0, "FONTBOUNDINGBOX x 20 0 0\n"), Some((8, 20)));
}

#[test]
fn families_load_and_double() {
    let f = Family::Spleen.load(3, &tiny_bdf(), "").unwrap();
    assert_eq!((f.width, f.height), (16, 32));
    assert!(f.has('A'));
    let f = Family::Spleen.load(0, &tiny_bdf(), "").unwrap();
    assert_eq!((f.width, f.height), (8, 16));
    assert!(Family::Spleen.load(0, "nothing", "").is_none());
    assert!(Family::Spleen.load(3, "FONTBOUNDINGBOX 20 16 0 0\n", "").is_none(), "too wide to double");
}

#[test]
fn families_merge_the_symbol_glyphs() {
    let hex = format!("23FA:{}\n0041:{}\n", "F".repeat(32), "0".repeat(32));
    for idx in [0usize, 3] {
        let f = Family::Spleen.load(idx, &tiny_bdf(), &hex).unwrap();
        assert!(f.has('\u{23FA}'), "the symbol comes from the hex text");
        assert!(f.glyph('\u{23FA}').rows.iter().any(|r| *r != 0));
        assert_ne!(f.glyph('\u{23FA}'), f.fallback());
        assert_eq!(f.glyph('\u{23FA}').rows.len(), f.height as usize);
        assert!(f.glyph('A').rows.iter().any(|r| *r != 0), "the font's own A stays");
    }
    let plain = Font::with_symbols(&tiny_bdf(), "").unwrap();
    assert!(!plain.has('\u{23FA}'));
    let merged = Font::with_symbols(&tiny_bdf(), &hex).unwrap();
    assert!(merged.has('\u{23FA}'));
    let f = Font::from_bdf(&tiny_bdf(), &hex);
    assert!(f.has('\u{23FA}') && f.has('A'));
    assert_eq!(f.glyph('\u{23FA}'), merged.glyph('\u{23FA}'));
    assert!(Font::with_symbols("FONTBOUNDINGBOX 8 12 0 0\n", &format!("2026:{}DB0000\n", "0".repeat(26))).is_none());
}

#[test]
fn every_glyph_has_the_cell_height() {
    let hex = format!("23FA:{}\n4E00:{}\n", "F".repeat(32), "FFFF".repeat(16));
    let f = Font::with_symbols(&tiny_bdf(), &hex).unwrap();
    for c in ['A', 'B', 'C', 'D', '\u{2502}', '\u{23FA}', '\u{4E00}', '\u{10FFFF}'] {
        assert_eq!(f.glyph(c).rows.len(), f.height as usize, "{c:?}");
    }
    let d = f.scaled_2x();
    for c in ['A', 'B', '\u{23FA}', '\u{10FFFF}'] {
        assert_eq!(d.glyph(c).rows.len(), d.height as usize, "{c:?}");
    }
    assert_eq!(f.glyph('\u{10FFFF}'), f.glyph('\u{10FFFE}'), "one shared fallback box");
}
