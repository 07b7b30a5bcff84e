use bc4py_plotter::joiner::{choose_plot_file, join_order, kept_plot_files, FileChoice};
use bc4py_plotter::names::{parse_plot_name, plot_file_name, PlotName};
use regex::Regex;

const ADDRESS: &str = "NDTTLPOUBQQLC5SZ4BPKK2GK6U3RP6TUKGBCCLDV";

fn plot(start: u64, end: u64) -> String {
    plot_file_name("optimized.", ADDRESS, start, end, ".dat")
}

#[test]
fn decimal_numerals_in_names() {
    assert_eq!(plot_file_name("", "", 0, 7, ""), "-0-7");
    assert_eq!(plot_file_name("", "", 10, 16384, ""), "-10-16384");
    assert_eq!(plot_file_name("", "", u64::MAX, 100, ""), "-18446744073709551615-100");
}

#[test]
fn plot_file_names() {
    assert_eq!(plot(0, 16384), format!("optimized.{}-0-16384.dat", ADDRESS));
    assert_eq!(
        plot_file_name("unoptimized.", "X", 5, 6, ".tmp"),
        "unoptimized.X-5-6.tmp"
    );
}

#[test]
fn plot_names_read_back() {
    for (s, e) in [(0u64, 1u64), (16384, 32768), (123, 4567890)] {
        match parse_plot_name(&plot(s, e)) {
            PlotName::Plot { address, start, end } => {
                assert_eq!(address, ADDRESS);
                assert_eq!(start as u64, s);
                assert_eq!(end as u64, e);
            }
            other => panic!("unexpected {:?}", other),
        }
    }
}

#[test]
fn plot_names_with_leading_zeros() {
    let name = format!("optimized.{}-007-010.dat", ADDRESS);
    match parse_plot_name(&name) {
        PlotName::Plot { start, end, .. } => assert_eq!((start, end), (7, 10)),
        other => panic!("unexpected {:?}", other),
    }
}

#[test]
fn names_that_are_not_plots() {
    let bad = [
        String::new(),
        format!("optimized.{}-1-2.tmp", ADDRESS),
        format!("unoptimized.{}-1-2.dat", ADDRESS),
        format!("optimized.{}-1-2.dat", &ADDRESS[1..]),
        format!("optimized.{}X-1-2.dat", ADDRESS),
        format!("optimized.{}-1-.dat", ADDRESS),
        format!("optimized.{}--2.dat", ADDRESS),
        format!("optimized.{}-1-2-3.dat", ADDRESS),
        format!("optimized.{}-1a-2.dat", ADDRESS),
        format!("optimized.{}-1-2.dat.", ADDRESS),
        format!("optimized.{}-+1-2.dat", ADDRESS),
        format!("optimized.{}-1-2.datx", ADDRESS),
        format!("xoptimized.{}-1-2.dat", ADDRESS),
        format!("optimized.{}-1-2.dat", ADDRESS.to_lowercase()),
        format!("optimized.{}-1-2.dat", "ÄDTTLPOUBQQLC5SZ4BPKK2GK6U3RP6TUKGBCCLDV"),
    ];
    for name in bad.iter() {
        assert!(matches!(parse_plot_name(name), PlotName::NotPlot), "{}", name);
    }
}

#[test]
fn numbers_beyond_usize() {
    let name = format!("optimized.{}-1-{}0.dat", ADDRESS, usize::MAX);
    match parse_plot_name(&name) {
        PlotName::TooLarge { address } => assert_eq!(address, ADDRESS),
        other => panic!("unexpected {:?}", other),
    }
    let name = format!("optimized.{}-{}-1.dat", ADDRESS, usize::MAX);
    assert!(matches!(parse_plot_name(&name), PlotName::Plot { .. }));
}

#[test]
fn parser_agrees_with_the_pattern() {
    let re = Regex::new("^optimized\\.([A-Z0-9]{40})\\-([0-9]+)\\-([0-9]+)\\.dat$").unwrap();
    let mut names: Vec<String> = Vec::new();
    let pieces = ["optimized.", ADDRESS, "-", "1", "23", "-", ".dat", "x", "A", ".", "0"];
    // names made of a few pieces in many orders
    for a in 0..pieces.len() {
        for b in 0..pieces.len() {
            for c in 0..pieces.len() {
                names.push(format!("optimized.{}{}{}{}.dat", ADDRESS, pieces[a], pieces[b], pieces[c]));
                names.push(format!("{}{}{}", pieces[a], pieces[b], pieces[c]));
            }
        }
    }
    for name in names.iter() {
        let by_pattern = re.captures(name).map(|c| {
            (c[1].to_string(), c[2].parse::<usize>().unwrap(), c[3].parse::<usize>().unwrap())
        });
        let by_parser = match parse_plot_name(name) {
            PlotName::NotPlot => None,
            PlotName::Plot { address, start, end } => Some((address, start, end)),
            PlotName::TooLarge { .. } => panic!("no large numbers here"),
        };
        assert_eq!(by_pattern, by_parser, "{}", name);
    }
}

#[test]
fn file_choices() {
    let other = "AAAAAAAAAAAAAAAAAAAAAAAAAAAAAAAAAAAAAAAA";
    let size = 4 * 524288;
    assert_eq!(choose_plot_file("readme.txt", 3, ADDRESS, 4), FileChoice::Ignore);
    assert_eq!(choose_plot_file(&plot(0, 4), size, ADDRESS, 4), FileChoice::Take { start: 0, end: 4 });
    assert_eq!(choose_plot_file(&plot(0, 4), size, other, 4), FileChoice::Skip);
    assert_eq!(choose_plot_file(&plot(0, 5), size, ADDRESS, 4), FileChoice::Skip);
    assert_eq!(choose_plot_file(&plot(0, 4), size - 1, ADDRESS, 4), FileChoice::Skip);
    assert_eq!(choose_plot_file(&plot(9, 4), size, ADDRESS, 4), FileChoice::Unusable);
    let huge = format!("optimized.{}-1-{}0.dat", ADDRESS, usize::MAX);
    assert_eq!(choose_plot_file(&huge, size, ADDRESS, 4), FileChoice::Unusable);
    assert_eq!(choose_plot_file(&huge, size, other, 4), FileChoice::Skip);
    let long = usize::MAX / 1000;
    let name = plot(0, long as u64);
    assert_eq!(choose_plot_file(&name, size, ADDRESS, long), FileChoice::Unusable);
}

#[test]
fn join_order_follows_the_chain() {
    let files = vec![(8, 12), (0, 4), (4, 8)];
    assert_eq!(join_order(&files, 0).unwrap(), vec![1, 2, 0]);
    assert_eq!(join_order(&Vec::new(), 5).unwrap(), Vec::<usize>::new());
}

#[test]
fn join_order_takes_the_first_match() {
    let files = vec![(0, 4), (4, 8), (0, 4)];
    assert_eq!(join_order(&files, 0).unwrap_err(), "there is 1 unrelated files");
    let files = vec![(3, 3), (3, 3), (3, 3)];
    assert_eq!(join_order(&files, 3).unwrap(), vec![0, 1, 2]);
}

#[test]
fn join_order_reports_unrelated_files() {
    let files = vec![(0, 4), (8, 12), (12, 16)];
    assert_eq!(join_order(&files, 0).unwrap_err(), "there is 2 unrelated files");
    assert_eq!(join_order(&files, 1).unwrap_err(), "there is 3 unrelated files");
}

#[test]
fn kept_files_in_entry_order() {
    let size = 4 * 524288;
    let entries = vec![
        (plot(4, 8), size),
        (String::from("notes.txt"), 10),
        (plot(0, 4), size),
        (plot(0, 5), size),
        (plot(8, 12), size - 1),
    ];
    assert_eq!(kept_plot_files(&entries, ADDRESS, 4).unwrap(), vec![(0, 4, 8), (2, 0, 4)]);
    let mut with_bad = entries.clone();
    with_bad.push((plot(9, 4), size));
    assert_eq!(kept_plot_files(&with_bad, ADDRESS, 4).unwrap_err(), 5);
}

#[test]
fn entries_not_kept_change_nothing() {
    let size = 2 * 524288;
    let base = vec![(plot(2, 4), size), (plot(0, 2), size)];
    let mut more = base.clone();
    more.insert(1, (String::from("readme"), 1));
    more.insert(0, (plot(0, 3), size));
    more.push((plot(4, 6), size + 1));
    let ranges = |e: &Vec<(String, u64)>| -> Vec<(usize, usize)> {
        kept_plot_files(e, ADDRESS, 2).unwrap().iter().map(|k| (k.1, k.2)).collect()
    };
    assert_eq!(ranges(&base), ranges(&more));
    assert_eq!(join_order(&ranges(&base), 0).unwrap(), join_order(&ranges(&more), 0).unwrap());
}

#[test]
fn entries_not_kept_keep_the_refusal() {
    let size = 2 * 524288;
    let base = vec![(plot(0, 2), size), (plot(5, 1), size), (plot(2, 4), size)];
    let mut more = base.clone();
    more.insert(0, (String::from("readme"), 1));
    more.insert(2, (plot(0, 3), size));
    let bad_base = kept_plot_files(&base, ADDRESS, 2).unwrap_err();
    let bad_more = kept_plot_files(&more, ADDRESS, 2).unwrap_err();
    assert_eq!(base[bad_base], more[bad_more]);
    let kept = kept_plot_files(&vec![(plot(2, 4), size), (plot(0, 2), size)], ADDRESS, 2).unwrap();
    assert!(kept.windows(2).all(|w| w[0].0 < w[1].0));
}
