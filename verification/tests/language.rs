//! The schedule language: names, durations, whole texts, end-to-end
//! processing, and validation of labels.

use task_schedule::parser::ScheduleParser;
use task_schedule::processor::process;
use task_schedule::render::render_analysis;
use task_schedule::task::LabelError;
use task_schedule::task::TaskLabel;

#[test]
fn task_name_succeed() {
    {
        let s = "AA._AA-3312-.zzzLL太_阳";
        let _ = ScheduleParser::parse_task_name(s).unwrap();

        let s2 = "AA._AA-3312-.zzzLL太_阳////llll";
        let res = ScheduleParser::parse_task_name(s2).unwrap();
        assert_eq!(res, s, "consumption stops at '/'");
    }

    let res = ScheduleParser::parse_task_name("A--[-AA太阳").unwrap();
    assert_eq!(res, "A--", "only consume until no match");
}

#[test]
fn task_name_fail() {
    let res = ScheduleParser::parse_task_name("(AAA");
    assert!(res.is_err(), "Cannot start with a non-letter");

    let res = ScheduleParser::parse_task_name("[A");
    assert!(res.is_err(), "Cannot start with a non-letter");
}

#[test]
fn task_name_and_duration_succeed() {
    assert!(ScheduleParser::parse_task_name_and_duration("A(22)").is_ok());
    assert!(ScheduleParser::parse_task_name_and_duration("A22(22)").is_ok());
    assert!(
        ScheduleParser::parse_task_name_and_duration("AA._AA-3312-.zzzLL太_阳(22)").is_ok()
    );
    {
        let (task_name, duration) =
            ScheduleParser::parse_task_name_and_duration("A(022)").unwrap();
        assert_eq!(task_name.as_str(), "A");
        assert_eq!(duration, 22);
    }
}

#[test]
fn task_name_and_duration_fail() {
    assert!(ScheduleParser::parse_task_name_and_duration("A(2.0)").is_err());
    assert!(ScheduleParser::parse_task_name_and_duration("A(-22)").is_err());
    assert!(ScheduleParser::parse_task_name_and_duration("A[(22)").is_err());
    assert!(ScheduleParser::parse_task_name_and_duration(")A22(22)").is_err());
    assert!(ScheduleParser::parse_task_name_and_duration("(A22(22)").is_err());
    assert!(ScheduleParser::parse_task_name_and_duration("(A22[22)").is_err());
    assert!(ScheduleParser::parse_task_name_and_duration("[A22[22)").is_err());
    assert!(ScheduleParser::parse_task_name_and_duration("A->(2.0)").is_err());
}

#[test]
fn parse_content_builds_declarations() {
    let text = "A(1)\nB(2) <- A\nC(3) <- A, B\n";
    let data = ScheduleParser::parse_content(text).unwrap();
    assert_eq!(data.task_durations().len(), 3);
    assert_eq!(data.task_durations()[0].0.as_str(), "A");
    assert_eq!(data.task_durations()[0].1, 1);
    assert_eq!(data.task_durations()[1].1, 2);
    assert_eq!(data.task_durations()[2].1, 3);
    // A alone, then A->B, then A->C and B->C.
    assert_eq!(data.task_orders().len(), 4);
    assert_eq!(data.task_orders()[0].0.as_str(), "A");
    assert!(data.task_orders()[0].1.is_none());
    assert_eq!(data.task_orders()[1].0.as_str(), "A");
    assert_eq!(data.task_orders()[1].1.as_ref().unwrap().as_str(), "B");
}

#[test]
fn parse_content_reports_position() {
    let err = ScheduleParser::parse_content("A(1)\nB(x)\n").unwrap_err();
    assert_eq!(err.line(), 2);
    assert!(err.column() >= 1);
}

#[test]
fn process_whole_schedule() {
    let text = "A(1)\nB(1) <- A\nC(1) <- B\nD(1) <- C\nE(1) <- C\nF(1) <- C\nK(4)\n";
    let analysis = process(text).unwrap();
    assert_eq!(analysis.max_parallelism(), 4);
    assert_eq!(analysis.task_count(), 7);
    assert_eq!(analysis.minimum_completion_time(), 4);
    assert_eq!(analysis.critical_path_count(), 4);
    let rendered = render_analysis(&analysis);
    assert!(rendered.starts_with("task_count: 7\nmax_parallelism: 4\n"));
    assert!(rendered.contains("minimum_completion_time: 4\n"));
    assert!(rendered.contains("critical_paths:\n"));
    assert!(rendered.contains("A->B->C->D\n"));
    assert!(rendered.contains("K\n"));
}

#[test]
fn process_rejects_conflicts_and_cycles() {
    assert!(process("A(1)\nA(2)\n").is_err());
    assert!(process("A(1) <- B\nB(1) <- A\n").is_err());
    assert!(process("A(1) <- A\n").is_err());
    assert!(process("").is_err());
}

#[test]
fn label_validation() {
    assert!(TaskLabel::try_new("A").is_ok());
    assert!(matches!(TaskLabel::try_new(""), Err(LabelError::Empty)));
    assert!(matches!(
        TaskLabel::try_new("A B"),
        Err(LabelError::Whitespace)
    ));
    let long: String = (0..71).map(|_| 'x').collect();
    assert!(matches!(
        TaskLabel::try_new(&long),
        Err(LabelError::TooLong)
    ));
    let max: String = (0..70).map(|_| 'x').collect();
    assert!(TaskLabel::try_new(&max).is_ok());
}

#[test]
fn rendered_numbers() {
    assert_eq!(task_schedule::render::format_number(0), "0");
    assert_eq!(task_schedule::render::format_number(10), "10");
    assert_eq!(task_schedule::render::format_number(65535), "65535");
}
