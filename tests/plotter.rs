use status_plot::error::FormatError;
use status_plot::log_file_loader::{Ratio, StatusValue};
use status_plot::pipeline::{build_config, run_plot, warning_message};
use status_plot::plotter::{
    build_geometry, convert_status, max_ratio, AxisBound, Color, Config, Format, Point,
};

fn r(mantissa: u64, scale: i64) -> Ratio {
    Ratio::new(mantissa, -scale).unwrap()
}

#[test]
fn single_record_geometry() {
    let recs = vec![StatusValue::Linear(r(30, 1))];
    let g = build_geometry(&recs, build_config(640, 480, 15, 2));
    assert_eq!(g.y_end, AxisBound { mantissa: 33, exponent: -1 });
    assert_eq!(g.x_end, 1);
    assert_eq!(g.points, vec![Point { x: 0, y: r(3, 0), color: Color::Blue }]);
}

#[test]
fn colors_by_status() {
    assert_eq!(convert_status(&StatusValue::Infeasible(r(1, 0))), (r(1, 0), Color::Red));
    assert_eq!(convert_status(&StatusValue::Linear(r(1, 0))), (r(1, 0), Color::Blue));
    assert_eq!(convert_status(&StatusValue::Integer(r(1, 0))), (r(1, 0), Color::Green));
    assert_eq!(convert_status(&StatusValue::Timeout(r(1, 0))), (r(1, 0), Color::Black));
}

#[test]
fn max_and_headroom() {
    let recs = vec![
        StatusValue::Linear(r(76, 2)),
        StatusValue::Integer(r(7678, 4)),
        StatusValue::Infeasible(r(8, 1)),
        StatusValue::Timeout(r(12, 2)),
    ];
    assert_eq!(max_ratio(&recs), r(8, 1));
    let g = build_geometry(&recs, Config::new());
    assert_eq!(g.y_end, AxisBound { mantissa: 88, exponent: -2 });
    assert_eq!(g.x_end, 4);
    assert_eq!(g.points[1], Point { x: 1, y: r(7678, 4), color: Color::Green });
    assert_eq!(g.points[3], Point { x: 3, y: r(12, 2), color: Color::Black });
    // 0.88 > 0.8
    assert!(g.y_end.mantissa * 10 > 8 * 100);
}

#[test]
fn all_zero_payloads_give_a_zero_bound() {
    let recs = vec![StatusValue::Linear(r(0, 0))];
    assert_eq!(build_geometry(&recs, Config::new()).y_end, AxisBound { mantissa: 0, exponent: -1 });
}

#[test]
fn config_builders() {
    let c = Config::new();
    assert_eq!(c, Config { width: 0, height: 0, margin: 0, radius: 0 });
    let c = c.set_size(640, 480).set_margin(15).set_radius(2);
    assert_eq!(c, Config { width: 640, height: 480, margin: 15, radius: 2 });
    assert_eq!(build_config(1, 2, 3, 4), Config { width: 1, height: 2, margin: 3, radius: 4 });
}

#[test]
fn empty_log_has_nothing_to_plot() {
    assert!(run_plot("", Config::new()).unwrap().is_none());
}

#[test]
fn run_plot_builds_the_chart() {
    let g = run_plot("3.0,0\n", build_config(640, 480, 15, 2)).unwrap().unwrap();
    assert_eq!(g.y_end, AxisBound { mantissa: 33, exponent: -1 });
    assert_eq!(g.config.width, 640);
    assert!(run_plot("3.0,7", Config::new()).is_err());
}

#[test]
fn output_format_by_extension() {
    assert_eq!(Format::get_format("chart.png").unwrap(), Format::Png);
    assert_eq!(Format::get_format("out/chart.svg").unwrap(), Format::Svg);
    match Format::get_format("chart.txt") {
        Err(FormatError::UnknownExtension(e)) => assert_eq!(e, "txt"),
        _ => panic!("expected an unknown extension"),
    }
    match Format::get_format("chart") {
        Err(FormatError::MissingFormat(p)) => assert_eq!(p, "chart"),
        _ => panic!("expected a missing format"),
    }
    assert!(matches!(Format::get_format("chart.PNG"), Err(FormatError::UnknownExtension(_))));
    assert!(matches!(Format::get_format(".png"), Err(FormatError::MissingFormat(_))));
}

#[test]
fn format_from_extension() {
    assert_eq!(Format::from_extension(Some("svg"), "a.svg").unwrap(), Format::Svg);
    assert!(matches!(
        Format::from_extension(None, "a"),
        Err(FormatError::MissingFormat(_))
    ));
    let e = Format::from_extension(Some("txt"), "a.txt").err().unwrap();
    assert_eq!(
        e.message(),
        "Given extension: `txt` is unknow\ncannot understand output format"
    );
}

#[test]
fn warning_names_the_input() {
    assert_eq!(warning_message(None), "WARNING: Given data log is empty: <STDIN>");
    assert_eq!(
        warning_message(Some(Some("runs.csv"))),
        "WARNING: Given data log is empty: runs.csv"
    );
    assert_eq!(
        warning_message(Some(None)),
        "WARNING: Given data log is empty: **UNKONW FILE NAME**"
    );
}
