use cavawall::output::{choose_output, is_builtin_connector, output_rank, Move, Output, Placed};

fn output(name: &str) -> Output {
    Output { name: Some(name.to_string()), logical_size: Some((1920, 1080)) }
}

fn pin(name: &str) -> Option<String> {
    Some(name.to_string())
}

#[test]
fn panels_are_told_by_their_connector() {
    for own in ["eDP-1", "eDP-2", "LVDS-1", "DSI-1", "eDP"] {
        assert!(is_builtin_connector(own), "{own}");
    }
    for other in ["HDMI-A-1", "DP-1", "edp-1", "", "eD", "DVI-D-1", "xeDP-1"] {
        assert!(!is_builtin_connector(other), "{other}");
    }
}

#[test]
fn a_pin_ranks_nothing_but_itself() {
    assert_eq!(output_rank(&None, "DP-1"), Some(0));
    assert_eq!(output_rank(&None, "eDP-1"), Some(1));
    assert_eq!(output_rank(&pin("eDP-1"), "eDP-1"), Some(0));
    assert_eq!(output_rank(&pin("eDP-1"), "DP-1"), None);
}

#[test]
fn an_external_monitor_wins_and_names_break_ties() {
    let all = [output("eDP-1"), output("HDMI-A-2"), output("DP-3"), output("DP-10")];
    assert_eq!(choose_output(&all, &None), Some(3), "DP-10 sorts before DP-3");
    assert_eq!(choose_output(&all[..1], &None), Some(0));
    assert_eq!(choose_output(&all, &pin("eDP-1")), Some(0));
    assert_eq!(choose_output(&all, &pin("DP-4")), None);
    assert_eq!(choose_output(&[], &None), None);
    let twice = [output("DP-1"), output("DP-1")];
    assert_eq!(choose_output(&twice, &None), Some(0));
}

#[test]
fn the_choice_does_not_hang_on_the_order() {
    let names = ["eDP-1", "HDMI-A-2", "DP-3"];
    for turn in 0..3 {
        let all: Vec<Output> = (0..3).map(|i| output(names[(i + turn) % 3])).collect();
        let i = choose_output(&all, &None).unwrap();
        assert_eq!(all[i].name.as_deref(), Some("DP-3"));
    }
}

#[test]
fn an_output_needs_a_name_and_a_size() {
    let all = [
        Output { name: Some("DP-1".to_string()), logical_size: None },
        Output { name: None, logical_size: Some((1, 1)) },
        output("eDP-1"),
    ];
    assert_eq!(choose_output(&all, &None), Some(2));
    assert_eq!(choose_output(&all[..2], &None), None);
}

#[test]
fn a_surface_moves_only_where_the_answer_changed() {
    let mut p = Placed { on: None, size: None };
    let all = vec![output("eDP-1"), output("DP-1")];
    assert_eq!(p.retarget(&all, &None), Move::Place(1));
    p.settle(&all[1]);
    assert_eq!(p.on.as_deref(), Some("DP-1"));
    assert_eq!(p.retarget(&all, &None), Move::Stay);
    // A new size is worth rebuilding for
    let mut grown = vec![output("eDP-1"), output("DP-1")];
    grown[1].logical_size = Some((2560, 1440));
    assert_eq!(p.retarget(&grown, &None), Move::Place(1));
    // Unplugged: forgotten before a new one is chosen
    assert_eq!(p.retarget(&all[..1], &None), Move::Place(0));
    assert_eq!((p.on.as_deref(), p.size), (None, None));
    p.settle(&all[0]);
    assert_eq!(p.retarget(&[], &None), Move::Idle { lost: false });
    assert_eq!(p.retarget(&[], &None), Move::Idle { lost: false });
    // Still plugged in, but no longer to be used
    p.settle(&all[0]);
    assert_eq!(p.retarget(&all, &pin("DP-9")), Move::Idle { lost: true });
    assert_eq!((p.on.as_deref(), p.size), (None, Some((1920, 1080))));
    assert_eq!(p.retarget(&all, &pin("DP-9")), Move::Idle { lost: true });
    assert_eq!((p.on.as_deref(), p.size), (None, None));
}
