use asciify::ascii::{convert, glyph, glyph_grid, ramp};
use asciify::font::{load_face, FontLoadError};
use asciify::pipeline::{run, Next, Stage, StageOutcome};
use asciify::render::{in_canvas, is_drawn, palette, Rgb};

#[test]
fn ramps() {
    let light: String = ramp(true).into_iter().collect();
    let dark: String = ramp(false).into_iter().collect();
    assert_eq!(light, "@%#*+=-:. ");
    assert_eq!(dark, " .:-=+*#%@");
}

#[test]
fn glyph_ends_of_the_ramp() {
    let light = ramp(true);
    let dark = ramp(false);
    assert_eq!(glyph(&light, 0), '@');
    assert_eq!(glyph(&light, 255), ' ');
    assert_eq!(glyph(&dark, 0), ' ');
    assert_eq!(glyph(&dark, 255), '@');
    // 128 * 9 / 255 = 4
    assert_eq!(glyph(&light, 128), '+');
    assert_eq!(glyph(&light, 28), '@');
    assert_eq!(glyph(&light, 29), '%');
}

#[test]
fn glyphs_get_sparser_as_tones_get_brighter() {
    let light = ramp(true);
    let mut last = 0;
    for t in 0..=255u8 {
        let position = light.iter().position(|&c| c == glyph(&light, t)).unwrap();
        assert!(position >= last);
        last = position;
    }
    assert_eq!(last, 9);
}

#[test]
fn grid_of_the_requested_size() {
    let tones = vec![255u8; 40 * 30];
    let art = convert(&tones, 40, 30, 12, 5, true);
    assert_eq!((art.cols, art.rows), (12, 5));
    assert_eq!(art.lines.len(), 5);
    for line in &art.lines {
        assert_eq!(line.chars().count(), 12);
        assert!(line.chars().all(|c| c == ' '));
    }
    let dark = convert(&tones, 40, 30, 12, 5, false);
    assert!(dark.lines.iter().all(|l| l == "@@@@@@@@@@@@"));
}

#[test]
fn same_size_grid_maps_each_pixel() {
    let tones = vec![0u8, 255, 128, 29];
    let art = convert(&tones, 2, 2, 2, 2, true);
    assert_eq!(art.lines, vec!["@ ".to_string(), "+%".to_string()]);
}

#[test]
fn downscaling_averages() {
    // left half black, right half white, scaled down to two columns: the triangle
    // filter blends across the edge, so neither column stays pure black or white
    let mut tones = Vec::new();
    for _ in 0..4 {
        tones.extend_from_slice(&[0u8, 0, 255, 255]);
    }
    let art = convert(&tones, 4, 4, 2, 1, true);
    assert_eq!(art.lines, vec!["%:".to_string()]);
}

#[test]
fn palettes() {
    assert_eq!(
        palette(true),
        (Rgb { r: 255, g: 255, b: 255 }, Rgb { r: 20, g: 20, b: 20 })
    );
    assert_eq!(
        palette(false),
        (Rgb { r: 13, g: 17, b: 23 }, Rgb { r: 230, g: 237, b: 243 })
    );
}

#[test]
fn blank_is_not_drawn() {
    assert!(!is_drawn(' '));
    assert!(is_drawn('@'));
    assert!(is_drawn('.'));
}

#[test]
fn canvas_bounds() {
    assert!(in_canvas(0, 0, 10, 5));
    assert!(in_canvas(9, 4, 10, 5));
    assert!(!in_canvas(10, 4, 10, 5));
    assert!(!in_canvas(9, 5, 10, 5));
    assert!(!in_canvas(-1, 0, 10, 5));
    assert!(!in_canvas(0, -3, 10, 5));
}

#[test]
fn garbage_is_not_a_font() {
    assert!(matches!(load_face(b"definitely not a font"), Err(FontLoadError)));
    assert!(matches!(load_face(b""), Err(FontLoadError)));
}

#[test]
fn successful_run_visits_every_stage_in_order() {
    let mut stage = Stage::ReadOptions;
    let mut seen = vec![stage];
    loop {
        match run(stage, StageOutcome::Succeeded) {
            Next::Perform(next) => {
                stage = next;
                seen.push(stage);
            }
            Next::Exit(code) => {
                assert_eq!(code, 0);
                break;
            }
        }
    }
    assert_eq!(
        seen,
        vec![
            Stage::ReadOptions,
            Stage::LoadFont,
            Stage::LoadImage,
            Stage::Process,
            Stage::Convert,
            Stage::Render
        ]
    );
}

#[test]
fn failures_and_help_end_the_run() {
    assert_eq!(run(Stage::LoadImage, StageOutcome::Failed), Next::Exit(1));
    assert_eq!(run(Stage::ReadOptions, StageOutcome::Failed), Next::Exit(1));
    assert_eq!(run(Stage::ReadOptions, StageOutcome::Answered), Next::Exit(0));
}

#[test]
fn glyph_grid_maps_each_tone() {
    let small = vec![0u8, 28, 29, 128, 254, 255];
    let light = glyph_grid(&small, 3, 2, true);
    assert_eq!((light.cols, light.rows), (3, 2));
    assert_eq!(light.lines, vec!["@@%".to_string(), "+. ".to_string()]);
    let dark = glyph_grid(&small, 3, 2, false);
    assert_eq!(dark.lines, vec!["  .".to_string(), "=%@".to_string()]);
}

#[test]
fn dark_grid_mirrors_the_light_ramp() {
    let ramp_light: Vec<char> = "@%#*+=-:. ".chars().collect();
    let small: Vec<u8> = (0..=255u8).collect();
    let light = glyph_grid(&small, 16, 16, true);
    let dark = glyph_grid(&small, 16, 16, false);
    for (l, d) in light.lines.iter().zip(&dark.lines) {
        assert_eq!(l.chars().count(), 16);
        for (a, b) in l.chars().zip(d.chars()) {
            let k = ramp_light.iter().position(|&c| c == a).unwrap();
            assert_eq!(b, ramp_light[9 - k]);
        }
    }
}
