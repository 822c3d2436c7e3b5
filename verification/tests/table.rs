use tile_xenium::bounds::get_limits;
use tile_xenium::bounds::Bounds;
use tile_xenium::error::DecodeError;
use tile_xenium::error::TileError;
use tile_xenium::pipeline::decode_cells;
use tile_xenium::pipeline::normalize_cell_ids;
use tile_xenium::probe::filter_transcripts;
use tile_xenium::probe::names_control_probe;
use tile_xenium::table::get_row_count;
use tile_xenium::table::table_is_valid;
use tile_xenium::table::Coord;
use tile_xenium::table::DecodedTranscript;
use tile_xenium::table::Transcript;
use tile_xenium::table::COORD_LIMIT;
use tile_xenium::text::chars_of;
use tile_xenium::text::has_prefix;
use tile_xenium::text::has_suffix;
use tile_xenium::text::same_text;

fn coord(v: f64) -> Coord {
    Coord { floor: v.floor() as i64, ceil: v.ceil() as i64 }
}

fn transcript(row: usize, cell_id: &str, overlaps_nucleus: bool, feature_name: &str) -> Transcript {
    Transcript {
        row,
        cell_id: cell_id.to_string(),
        overlaps_nucleus,
        feature_name: feature_name.to_string(),
        x: coord(0.0),
        y: coord(0.0),
    }
}

fn point(row: usize, x: f64, y: f64) -> DecodedTranscript {
    DecodedTranscript { row, cell_id: 0, overlaps_nucleus: true, x: coord(x), y: coord(y) }
}

#[test]
fn check_decode_cells() {
    let df = vec![
        transcript(0, "0", true, "Gene"),
        transcript(1, "ffkpbaba-1", true, "Gene"),
        transcript(2, "ffkpbaba-1", false, "Gene"),
    ];

    let solution = vec![
        DecodedTranscript { row: 0, cell_id: 0, overlaps_nucleus: true, x: coord(0.0), y: coord(0.0) },
        DecodedTranscript {
            row: 1,
            cell_id: 1437536272,
            overlaps_nucleus: true,
            x: coord(0.0),
            y: coord(0.0),
        },
        DecodedTranscript {
            row: 2,
            cell_id: 1437536272,
            overlaps_nucleus: false,
            x: coord(0.0),
            y: coord(0.0),
        },
    ];

    let res = decode_cells(&df).unwrap();
    assert_eq!(res, solution);
}

#[test]
fn check_filter_transcripts() {
    let df = vec![
        transcript(0, "0", false, "NegControlProbe_"),
        transcript(1, "0", false, "antisense_"),
        transcript(2, "0", true, "NegControlCodeword_"),
        transcript(3, "0", false, "BLANK_"),
        transcript(4, "0", true, "Gene"),
    ];

    let result = filter_transcripts(&df);

    let solution = vec![transcript(4, "0", true, "Gene")];

    assert_eq!(result, solution);
}

#[test]
fn check_limits() {
    let xs = [1.0, 2.0, 3.0, 2.5];
    let ys = [9.0, 8.7, 8.8, 8.9];
    let mut df = Vec::new();
    for i in 0..4 {
        df.push(point(i, xs[i], ys[i]));
    }

    assert_eq!(get_limits(&df), Some(Bounds { x_min: 1, x_max: 3, y_min: 8, y_max: 9 }))
}

#[test]
fn limits_round_outward() {
    let df = vec![point(0, -0.5, 0.25), point(1, 7.01, -3.99), point(2, 2.0, 2.0)];
    assert_eq!(get_limits(&df), Some(Bounds { x_min: -1, x_max: 8, y_min: -4, y_max: 2 }));
    let one = vec![point(0, 5.5, 5.0)];
    assert_eq!(get_limits(&one), Some(Bounds { x_min: 5, x_max: 6, y_min: 5, y_max: 5 }));
}

#[test]
fn empty_table_has_no_limits() {
    assert_eq!(get_limits(&Vec::new()), None);
}

#[test]
fn decoding_stops_at_the_first_bad_row() {
    let df = vec![
        transcript(10, "1", true, "Gene"),
        transcript(11, "zz-1", true, "Gene"),
        transcript(12, "nothing", true, "Gene"),
    ];
    assert_eq!(
        decode_cells(&df),
        Err(TileError::Decode { row: 11, cause: DecodeError::BadCharacter })
    );
    assert_eq!(decode_cells(&Vec::new()), Ok(Vec::new()));
}

#[test]
fn filter_keeps_order_and_content() {
    let names = [
        "Gene", "BLANK_0001", "ACTB", "NegControlProbe_00042", "antisense_X", "blank_", "BLANK",
        "NegControlCodeword_7", " BLANK_", "xNegControlProbe_", "Antisense_", "", "NegControlProbe",
    ];
    let mut df = Vec::new();
    for (i, name) in names.iter().enumerate() {
        let mut t = transcript(i, "aaaa-1", i % 2 == 0, name);
        t.x = coord(i as f64 + 0.5);
        df.push(t);
    }
    let kept = filter_transcripts(&df);
    let rows: Vec<usize> = kept.iter().map(|t| t.row).collect();
    assert_eq!(rows, vec![0, 2, 5, 6, 8, 9, 10, 11, 12]);
    for t in kept.iter() {
        assert_eq!(*t, df[t.row]);
        assert!(!names_control_probe(&t.feature_name));
    }
    for t in df.iter() {
        if !names_control_probe(&t.feature_name) {
            assert!(kept.contains(t));
        }
    }
    assert_eq!(get_row_count(&kept), 9);
}

#[test]
fn control_probes_are_told_by_their_prefix() {
    assert!(names_control_probe("NegControlProbe_"));
    assert!(names_control_probe("antisense_"));
    assert!(names_control_probe("NegControlCodeword_"));
    assert!(names_control_probe("BLANK_"));
    assert!(names_control_probe("BLANK_0123"));
    assert!(!names_control_probe("Gene"));
    assert!(!names_control_probe("BLANK"));
    assert!(!names_control_probe("_BLANK_"));
    assert!(!names_control_probe("negcontrolprobe_"));
    assert!(!names_control_probe(""));
}

#[test]
fn unassigned_cells_become_zero() {
    let df = vec![
        transcript(0, "UNASSIGNED", true, "A"),
        transcript(1, "ffkpbaba-1", true, "B"),
        transcript(2, "ffkpbaba-1", false, "C"),
        transcript(3, "UNASSIGNED", false, "D"),
        transcript(4, "unassigned", true, "E"),
    ];
    let plain = normalize_cell_ids(&df, false);
    let ids: Vec<&str> = plain.iter().map(|t| t.cell_id.as_str()).collect();
    assert_eq!(ids, vec!["0", "ffkpbaba-1", "ffkpbaba-1", "0", "unassigned"]);
    let nucleus = normalize_cell_ids(&df, true);
    let ids: Vec<&str> = nucleus.iter().map(|t| t.cell_id.as_str()).collect();
    assert_eq!(ids, vec!["0", "ffkpbaba-1", "0", "0", "unassigned"]);
    for (a, b) in df.iter().zip(nucleus.iter()) {
        assert_eq!(a.row, b.row);
        assert_eq!(a.feature_name, b.feature_name);
        assert_eq!(a.overlaps_nucleus, b.overlaps_nucleus);
        assert_eq!(a.x, b.x);
        assert_eq!(a.y, b.y);
    }
}

#[test]
fn coordinates_are_checked() {
    assert!(Coord { floor: 1, ceil: 2 }.is_valid());
    assert!(Coord { floor: 2, ceil: 2 }.is_valid());
    assert!(Coord { floor: -COORD_LIMIT, ceil: -COORD_LIMIT }.is_valid());
    assert!(Coord { floor: COORD_LIMIT, ceil: COORD_LIMIT }.is_valid());
    assert!(!Coord { floor: 2, ceil: 1 }.is_valid());
    assert!(!Coord { floor: 1, ceil: 3 }.is_valid());
    assert!(!Coord { floor: COORD_LIMIT, ceil: COORD_LIMIT + 1 }.is_valid());
    assert!(!Coord { floor: -COORD_LIMIT - 1, ceil: -COORD_LIMIT }.is_valid());
    assert!(!Coord { floor: i64::MIN, ceil: i64::MAX }.is_valid());
    let mut t = transcript(0, "0", true, "Gene");
    assert!(table_is_valid(&vec![t.clone()]));
    t.y = Coord { floor: 3, ceil: 1 };
    assert!(!table_is_valid(&vec![transcript(0, "0", true, "Gene"), t]));
    assert!(table_is_valid(&Vec::new()));
}

#[test]
fn texts_are_compared_by_characters() {
    assert_eq!(chars_of("aé-"), vec!['a', 'é', '-']);
    assert!(has_prefix(&chars_of("BLANK_1"), &chars_of("BLANK_")));
    assert!(has_prefix(&chars_of("x"), &chars_of("")));
    assert!(!has_prefix(&chars_of("BLAN"), &chars_of("BLANK_")));
    assert!(has_suffix(&chars_of("a.csv"), &chars_of(".csv")));
    assert!(!has_suffix(&chars_of("a.csv.gz"), &chars_of(".csv")));
    assert!(!has_suffix(&chars_of("csv"), &chars_of(".csv")));
    assert!(same_text("UNASSIGNED", "UNASSIGNED"));
    assert!(!same_text("UNASSIGNED", "UNASSIGNED "));
    assert!(!same_text("UNASSIGNEd", "UNASSIGNED"));
    assert!(same_text("", ""));
}
