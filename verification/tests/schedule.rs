//! Schedule analysis behavior, exercised through the public API.

use task_schedule::analyzer::analyze_schedule;
use task_schedule::analyzer::AnalysisError;
use task_schedule::analyzer::ScheduleAnalysis;
use task_schedule::render::serialize_path;
use task_schedule::task::Duration;
use task_schedule::task::TaskLabel;
use task_schedule::task::TaskOrder;
use task_schedule::task::TaskRelation;

fn analyze(
    ords: &[TaskOrder],
    durs: &[(&str, Duration)],
) -> Result<ScheduleAnalysis, AnalysisError> {
    let orders: Vec<TaskOrder> = ords.iter().map(|o| o.clone()).collect();
    let durations: Vec<(TaskLabel, Duration)> =
        durs.iter().map(|&(s, d)| (TaskLabel::new(s), d)).collect();
    analyze_schedule(&orders, &durations)
}

fn labels(strs: &[&str]) -> Vec<TaskLabel> {
    strs.iter().map(|&s| TaskLabel::new(s)).collect()
}

fn paths(strs: &[&str]) -> Vec<Vec<TaskLabel>> {
    strs.iter()
        .map(|&s| s.split("->").map(TaskLabel::new).collect::<Vec<_>>())
        .collect()
}

#[test]
fn single_task_path_schedules() {
    // single-task path
    let ords = &["A".node()];
    let durs = &[("A", 2)];
    let analysis = analyze(ords, durs).unwrap();
    assert_eq!(analysis.max_parallelism(), 1);
    assert_eq!(analysis.task_count(), 1);
    assert_eq!(analysis.minimum_completion_time(), 2);
    assert_eq!(analysis.critical_path_count(), 1);
    assert_eq!(analysis.critical_paths(), &paths(&["A"]));

    // two single-task paths
    let ords = &["A".node(), "B".node()];
    let durs = &[("A", 2), ("B", 3)];
    let analysis = analyze(ords, durs).unwrap();
    assert_eq!(analysis.max_parallelism(), 2);
    assert_eq!(analysis.task_count(), 2);
    assert_eq!(analysis.minimum_completion_time(), 3);
    assert_eq!(analysis.critical_path_count(), 1);
    assert_eq!(analysis.critical_paths(), &paths(&["B"]));

    // three paths, two of which are a single-task path
    let ords = &["A".node(), "B".node(), "D".arrow("L")];
    let durs = &[("A", 2), ("B", 3), ("D", 7), ("L", 1)];
    let analysis = analyze(ords, durs).unwrap();
    assert_eq!(analysis.max_parallelism(), 3);
    assert_eq!(analysis.task_count(), 4);
    assert_eq!(analysis.minimum_completion_time(), 8);
    assert_eq!(analysis.critical_path_count(), 1);
    assert_eq!(analysis.critical_paths(), &paths(&["D->L"]));
}

#[test]
fn multiple_sources_and_multiple_sinks_path_schedules() {
    let ords = &["A".arrow("C"), "B".arrow("D")];
    let durs = &[("A", 5 as Duration), ("B", 1), ("C", 9), ("D", 7)];
    let analysis = analyze(ords, durs).unwrap();
    assert_eq!(analysis.max_parallelism(), 2);
    assert_eq!(analysis.task_count(), 4);
    assert_eq!(analysis.minimum_completion_time(), 14);
    assert_eq!(analysis.critical_path_count(), 1);
    assert_eq!(analysis.critical_paths(), &paths(&["A->C"]));

    let ords = &["A".arrow("C"), "B".arrow("D")];
    let durs = &[("A", 5 as Duration), ("B", 7), ("C", 9), ("D", 8)];
    let analysis = analyze(ords, durs).unwrap();
    assert_eq!(analysis.max_parallelism(), 2);
    assert_eq!(analysis.task_count(), 4);
    assert_eq!(analysis.minimum_completion_time(), 15);
    assert_eq!(analysis.critical_path_count(), 1);
    assert_eq!(analysis.critical_paths(), &paths(&["B->D"]));
}

#[test]
fn report_accurate_parallelism_as_time_progresses() {
    let ords = &[
        "A".arrow("B"),
        "B".arrow("C"),
        "C".arrow("D"),
        "C".arrow("E"),
        "C".arrow("F"),
        "K".node(),
    ];
    let durs = &[
        ("A", 1 as Duration),
        ("B", 1),
        ("C", 1),
        ("D", 1),
        ("E", 1),
        ("F", 1),
        ("K", 4),
    ];
    let analysis = analyze(ords, durs).unwrap();
    assert_eq!(
        analysis.max_parallelism(),
        4,
        "finding tasks D, E, F, K running together at the 4th \"tick\" requires 4 task-runners"
    );
    assert_eq!(analysis.task_count(), 7);
    assert_eq!(analysis.minimum_completion_time(), 4);
    assert_eq!(analysis.critical_path_count(), 4);
    assert_eq!(
        analysis.critical_paths(),
        &paths(&["A->B->C->D", "A->B->C->E", "A->B->C->F", "K"])
    );

    let ords = &[
        "A".arrow("B"),
        "B".arrow("C"),
        "C".arrow("D"),
        "C".arrow("E"),
        "C".arrow("F"),
        "K".node(),
    ];
    let durs = &[
        ("A", 1 as Duration),
        ("B", 1),
        ("C", 1),
        ("D", 1),
        ("E", 1),
        ("F", 1),
        ("K", 3),
    ];
    let analysis = analyze(ords, durs).unwrap();
    assert_eq!(
        analysis.max_parallelism(),
        3,
        "K finishes before we get to execute D, E, F at the 4th tick, thus at most 3 task-runners needed"
    );
    assert_eq!(analysis.task_count(), 7);
    assert_eq!(analysis.minimum_completion_time(), 4);
    assert_eq!(analysis.critical_path_count(), 3);
    assert_eq!(
        analysis.critical_paths(),
        &paths(&["A->B->C->D", "A->B->C->E", "A->B->C->F"])
    );

    let ords = &["A".arrow("B"), "A".arrow("C"), "K".node()];
    let durs = &[("A", 0 as Duration), ("B", 0), ("C", 0), ("K", 0)];
    let analysis = analyze(ords, durs).unwrap();
    assert!(
        analysis.max_parallelism() == 2 || analysis.max_parallelism() == 3,
        "Time does not exist; edge case!!!"
    );
    assert_eq!(analysis.task_count(), 4);
    assert_eq!(analysis.minimum_completion_time(), 0);
    assert_eq!(analysis.critical_path_count(), 3);
    assert_eq!(analysis.critical_paths(), &paths(&["A->B", "A->C", "K"]));
}

#[test]
fn single_source_and_multiple_sinks_path_schedules() {
    let ords = &[
        "K".arrow("L"),
        "K".arrow("T"),
        "L".arrow("Z"),
        "T".arrow("F"),
    ];
    let durs = &[
        ("K", 1 as Duration),
        ("L", 12),
        ("Z", 1),
        ("T", 5),
        ("F", 20),
    ];
    let analysis = analyze(ords, durs).unwrap();
    assert_eq!(analysis.max_parallelism(), 2);
    assert_eq!(analysis.task_count(), 5);
    assert_eq!(analysis.minimum_completion_time(), 26);
    assert_eq!(analysis.critical_path_count(), 1);
    assert_eq!(analysis.critical_paths(), &paths(&["K->T->F"]));

    let ords = &[
        "A".arrow("B"),
        "A".arrow("C"),
        "B".arrow("D"),
        "B".arrow("F"),
        "C".arrow("F"),
        "C".arrow("G"),
        "F".arrow("H"),
        "D".arrow("H"),
        "G".arrow("I"),
    ];
    let durs = &[
        ("A", 1 as Duration),
        ("B", 1),
        ("C", 1),
        ("D", 1),
        ("F", 1),
        ("H", 1),
        ("G", 1),
        ("I", 1),
    ];
    let analysis = analyze(ords, durs).unwrap();
    assert_eq!(analysis.max_parallelism(), 3);
    assert_eq!(analysis.task_count(), 8);
    assert_eq!(analysis.minimum_completion_time(), 4);
    assert_eq!(analysis.critical_path_count(), 4);
    assert_eq!(
        analysis.critical_paths(),
        &paths(&["A->B->D->H", "A->B->F->H", "A->C->F->H", "A->C->G->I"])
    );

    let ords = &[
        "A".arrow("B"),
        "A".arrow("C"),
        "B".arrow("D"),
        "B".arrow("F"),
        "C".arrow("F"),
        "C".arrow("G"),
        "F".arrow("H"),
        "D".arrow("H"),
        "G".arrow("I"),
        "F".arrow("I"),
    ];
    let durs = &[
        ("A", 1 as Duration),
        ("B", 1),
        ("C", 1),
        ("D", 1),
        ("F", 1),
        ("H", 1),
        ("G", 1),
        ("I", 1),
    ];
    let analysis = analyze(ords, durs).unwrap();
    assert_eq!(analysis.max_parallelism(), 3);
    assert_eq!(analysis.task_count(), 8);
    assert_eq!(analysis.minimum_completion_time(), 4);
    assert_eq!(analysis.critical_path_count(), 6);
    assert_eq!(
        analysis.critical_paths(),
        &paths(&[
            "A->B->D->H",
            "A->B->F->H",
            "A->B->F->I",
            "A->C->F->H",
            "A->C->F->I",
            "A->C->G->I"
        ])
    );

    let ords = &[
        "A".arrow("B"),
        "A".arrow("C"),
        "B".arrow("D"),
        "B".arrow("F"),
        "C".arrow("F"),
        "C".arrow("G"),
        "F".arrow("H"),
        "D".arrow("H"),
        "G".arrow("I"),
        "F".arrow("I"),
        "I".arrow("K"),
    ];
    let durs = &[
        ("A", 1 as Duration),
        ("B", 1),
        ("C", 1),
        ("D", 1),
        ("F", 1),
        ("H", 1),
        ("G", 1),
        ("I", 1),
        ("K", 0),
    ];
    let analysis = analyze(ords, durs).unwrap();
    assert_eq!(analysis.max_parallelism(), 3);
    assert_eq!(analysis.task_count(), 9);
    assert_eq!(analysis.minimum_completion_time(), 4);
    assert_eq!(analysis.critical_path_count(), 6);
    assert_eq!(
        analysis.critical_paths(),
        &paths(&[
            "A->B->F->I->K",
            "A->C->F->I->K",
            "A->C->G->I->K",
            "A->B->D->H",
            "A->B->F->H",
            "A->C->F->H"
        ])
    );
}

#[test]
fn multiple_sources_and_single_sink_path_schedules() {
    let ords = &[
        "P".arrow("T"),
        "T".arrow("D"),
        "Z".arrow("D"),
        "J".arrow("D"),
    ];
    let durs = &[
        ("P", 7 as Duration),
        ("T", 19),
        ("D", 0),
        ("Z", 10),
        ("J", 26),
    ];
    let analysis = analyze(ords, durs).unwrap();
    assert_eq!(analysis.max_parallelism(), 3);
    assert_eq!(analysis.task_count(), 5);
    assert_eq!(analysis.minimum_completion_time(), 26);
    assert_eq!(analysis.critical_path_count(), 2);
    assert_eq!(analysis.critical_paths(), &paths(&["P->T->D", "J->D"]));
}

#[test]
fn zero_durations_and_no_task_ordering() {
    let ords = &["A".node(), "B".node(), "C".node(), "D".node()];
    let durs = &[("A", 0), ("B", 0), ("C", 0), ("D", 0)];
    let analysis = analyze(ords, durs).unwrap();
    assert_eq!(analysis.max_parallelism(), 4);
    assert_eq!(analysis.task_count(), 4);
    assert_eq!(analysis.minimum_completion_time(), 0);
    assert_eq!(analysis.critical_path_count(), 4);
    assert_eq!(analysis.critical_paths(), &paths(&["A", "B", "C", "D"]));
}

#[test]
fn flexible_fusion() {
    // A -> B, where A is being fused to B later
    let ords = &["A".node(), "B".node(), "A".arrow("B")];
    let durs = &[("A", 2), ("B", 1)];
    let analysis = analyze(ords, durs).unwrap();
    assert_eq!(analysis.max_parallelism(), 1);
    assert_eq!(analysis.task_count(), 2);
    assert_eq!(analysis.minimum_completion_time(), 3);
    assert_eq!(analysis.critical_path_count(), 1);
    assert_eq!(analysis.critical_paths(), &paths(&["A->B"]));

    // A -> B
    let ords = &["A".arrow("B")];
    let durs = &[("A", 2), ("B", 1)];
    let analysis = analyze(ords, durs).unwrap();
    assert_eq!(analysis.max_parallelism(), 1);
    assert_eq!(analysis.task_count(), 2);
    assert_eq!(analysis.minimum_completion_time(), 3);
    assert_eq!(analysis.critical_path_count(), 1);
    assert_eq!(analysis.critical_paths(), &paths(&["A->B"]));

    // A -> B -> D, where A and B is fused later
    let ords = &["A".node(), "B".node(), "B".arrow("D"), "A".arrow("B")];
    let durs = &[("A", 2), ("B", 1), ("D", 3)];
    let analysis = analyze(ords, durs).unwrap();
    assert_eq!(analysis.max_parallelism(), 1);
    assert_eq!(analysis.task_count(), 3);
    assert_eq!(analysis.minimum_completion_time(), 6);
    assert_eq!(analysis.critical_path_count(), 1);
    assert_eq!(analysis.critical_paths(), &paths(&["A->B->D"]));
}

#[test]
fn empty_input() {
    let ords = &[];
    let durs = &[];
    let res = analyze(ords, durs);
    assert!(matches!(res, Err(AnalysisError::EmptyInput)));
}

#[test]
fn missing_durations() {
    let ords = &["A".node(), "B".node(), "D".arrow("L")];
    let durs = &[("A", 2), ("L", 1)];
    let res = analyze(ords, durs);
    match res {
        Err(AnalysisError::MissingDurations(vec)) => assert_eq!(vec, labels(&["B", "D"])),
        other => assert!(matches!(other, Err(AnalysisError::MissingDurations(_)))),
    }

    let ords = &["A".node(), "B".node(), "D".arrow("L")];
    let durs = &[];
    let res = analyze(ords, durs);
    match res {
        Err(AnalysisError::MissingDurations(vec)) => {
            assert_eq!(vec, labels(&["A", "B", "D", "L"]))
        }
        other => {
            assert!(matches!(other, Err(AnalysisError::MissingDurations(_))));
        }
    }
}

#[test]
fn missing_orders() {
    let ords = &["A".node(), "D".arrow("L")];
    let durs = &[("A", 2), ("B", 3), ("D", 7), ("L", 1)];
    let res = analyze(ords, durs);
    match res {
        Err(AnalysisError::MissingOrders(vec)) => assert_eq!(vec, labels(&["B"])),
        other => assert!(matches!(other, Err(AnalysisError::MissingOrders(_)))),
    }

    let ords = &[];
    let durs = &[("A", 2), ("L", 1)];
    let res = analyze(ords, durs);
    match res {
        Err(AnalysisError::MissingOrders(vec)) => assert_eq!(vec, labels(&["A", "L"])),
        other => assert!(matches!(other, Err(AnalysisError::MissingOrders(_)))),
    }
}

#[test]
fn cyclic_schedules() {
    // A -> B -> A
    let ords = &["A".arrow("B"), "B".arrow("A")];
    let durs = &[("A", 5 as Duration), ("B", 1)];
    let res = analyze(ords, durs);
    assert_eq!(res.unwrap_err(), AnalysisError::Cycle);

    let ords = &[
        "A".arrow("C"),
        "B".arrow("D"),
        "C".arrow("D"),
        "D".arrow("A"),
    ];
    let durs = &[("A", 5 as Duration), ("B", 1), ("C", 1), ("D", 7)];
    let res = analyze(ords, durs);
    assert_eq!(res.unwrap_err(), AnalysisError::Cycle);

    // A -> C -> D -> B -> A
    let ords = &[
        "A".arrow("C"),
        "C".arrow("D"),
        "D".arrow("B"),
        "B".arrow("A"),
    ];
    let durs = &[("A", 5 as Duration), ("B", 1), ("C", 1), ("D", 7)];
    let res = analyze(ords, durs);
    assert_eq!(res.unwrap_err(), AnalysisError::Cycle);

    let ords = &[
        "K".arrow("L"),
        "K".arrow("T"),
        "L".arrow("T"),
        "T".arrow("L"),
    ];
    let durs = &[("K", 5 as Duration), ("L", 1), ("T", 1)];
    let res = analyze(ords, durs);
    assert_eq!(res.unwrap_err(), AnalysisError::Cycle);
}

#[test]
fn path_serialization() {
    let path = labels(&["B", "D", "C"]);
    let buf = serialize_path(&path, "->", 1);
    let vec_str = buf.split_whitespace().collect::<Vec<&str>>();
    assert_eq!(vec_str[0], "B->");
    assert_eq!(vec_str[1], "D->");
    assert_eq!(vec_str[2], "C");

    let path = labels(&["BB", "DD", "CC"]);
    let buf = serialize_path(&path, "->", 2);
    let vec_str = buf.split_whitespace().collect::<Vec<&str>>();
    assert_eq!(vec_str[0], "BB->");
    assert_eq!(vec_str[1], "DD->");
    assert_eq!(vec_str[2], "CC");

    let path = labels(&["BB"]);
    let buf = serialize_path(&path, "->", 2);
    let vec_str = buf.split_whitespace().collect::<Vec<&str>>();
    assert_eq!(vec_str[0], "BB");
}

#[test]
fn path_serialization_custom_labels() {
    let path = [
        "0e928v8U8vJ8136qq",
        "VO2JI",
        "oNdK9v0L8HVsf",
        "GSIDD3BBY5s92KwO92L7Z",
        "BH9Iwo0",
        "g0y4s",
        "5W0m5D1586o8KM",
        "p9T80Q3IMl4v3RVo9z1L",
        "7o9Lffql1ByrSN6Nw9B9g8h3t",
        "bzfX40xVStq3BmNYhz19LN",
        "rYPfT7W9BT195uW2JLr",
        "P5GMQsLs0pmQ71",
        "4IX55y2Z03",
        "x4nXd",
        "1vRC03Gp4",
        "XDpK",
        "5Y5QX9Sr",
        "HDS46bzvn4",
        "I2a",
        "P",
        "we52ma8",
        "3L606Qbq0x4xlj4504xYD5",
        "YkIe19i7bDe4",
        "0",
        "Lq7NHYotR365uANzrp0",
        "e9919B6knL38E2",
        "uc8G",
        "Sf1pUx1FpaC0gDQR11t",
        "G3UIv7Nxq29Z",
        "7xw",
        "c",
        "w4eAY4Xc27tl0PJ",
        "du5",
        "1e3",
        "imm4",
        "4Rqc",
        "ha6K6",
        "h7ygXHvs0",
        "kl9R5Zhg8PLbg5CQ8S22n",
        "6FxlsD8c3",
        "BuoxppGpYOk9kdzEAELC7o9B",
        "7pjk1WX9XDKafb9ZuMCq",
        "eVpqqtLkx552s27A",
        "5O",
        "7f4o0mYisAvtN8QW4b71",
        "Y3D4P",
        "TzniQk0vbH6W23JNW2iv",
        "F956Fm5iVk4I32r",
        "jWS8W8euiV5sW8fd8S",
        "X7jdHFfjk79B6G0z7094Ez97G8OX",
        "532garQ3GytE",
        "OvA48Av",
        "78B1A7y",
        "az",
        "p72kp",
        "3QCK",
        "1sK8",
        "z",
        "TvJF92ZQUh",
        "v8KK2w5u6a72cQmFVJph88",
        "1CFEtP8k4pf8G0t",
        "IBk2Y6g3H",
        "aG4",
        "47f08419eV",
        "hV4qcwM0JWUb97yFkKfYcK75DL",
        "RfbD1Cv6Y7ThmTVasf",
        "Xrp12YvQnZ6",
        "G2xe78a5mkXh0FeA",
        "13cER4Bq7X290024",
        "B",
        "DrKrfJ",
        "wz29wPI5S4",
        "6hAApDa1LT8",
        "F",
        "Zr6W8d1305bHTzlQs7NS36PASi",
        "Vm433C8d5OeitqXy",
        "11jGL7IyP35",
        "3UWflM",
        "qbh0oITPZC40O",
        "O0qJIVU3s3MvNhs0",
        "5",
        "l7p",
        "7Y7c0QS7FS4DK5UG3971Ku",
        "qEJV3m8P6nN0XA",
        "x3U1UkFon57",
        "s32b2qa7M913Qo",
        "43",
        "t3e49256a01B8W1DG8m37c",
        "TOry03Q7zB7A5",
        "EadeJXZe4Hhz6GwN",
        "MYNe7d7m4",
        "0RuXW5Ku42fF550e02v9",
    ]
    .iter()
    .filter_map(|&s| TaskLabel::try_new(s).ok())
    .collect::<Vec<_>>();

    let buf = serialize_path(&path, "->", TaskLabel::MAX_LEN);

    let expected = vec![
        "0e928v8U8vJ8136qq->VO2JI->oNdK9v0L8HVsf->GSIDD3BBY5s92KwO92L7Z->",
        "BH9Iwo0->g0y4s->5W0m5D1586o8KM->p9T80Q3IMl4v3RVo9z1L->",
        "7o9Lffql1ByrSN6Nw9B9g8h3t->bzfX40xVStq3BmNYhz19LN->rYPfT7W9BT195uW2JLr->",
        "P5GMQsLs0pmQ71->4IX55y2Z03->x4nXd->1vRC03Gp4->XDpK->5Y5QX9Sr->",
        "HDS46bzvn4->I2a->P->we52ma8->3L606Qbq0x4xlj4504xYD5->YkIe19i7bDe4->0->",
        "Lq7NHYotR365uANzrp0->e9919B6knL38E2->uc8G->Sf1pUx1FpaC0gDQR11t->",
        "G3UIv7Nxq29Z->7xw->c->w4eAY4Xc27tl0PJ->du5->1e3->imm4->4Rqc->ha6K6->",
        "h7ygXHvs0->kl9R5Zhg8PLbg5CQ8S22n->6FxlsD8c3->BuoxppGpYOk9kdzEAELC7o9B->",
        "7pjk1WX9XDKafb9ZuMCq->eVpqqtLkx552s27A->5O->7f4o0mYisAvtN8QW4b71->",
        "Y3D4P->TzniQk0vbH6W23JNW2iv->F956Fm5iVk4I32r->jWS8W8euiV5sW8fd8S->",
        "X7jdHFfjk79B6G0z7094Ez97G8OX->532garQ3GytE->OvA48Av->78B1A7y->az->",
        "p72kp->3QCK->1sK8->z->TvJF92ZQUh->v8KK2w5u6a72cQmFVJph88->",
        "1CFEtP8k4pf8G0t->IBk2Y6g3H->aG4->47f08419eV->",
        "hV4qcwM0JWUb97yFkKfYcK75DL->RfbD1Cv6Y7ThmTVasf->Xrp12YvQnZ6->",
        "G2xe78a5mkXh0FeA->13cER4Bq7X290024->B->DrKrfJ->wz29wPI5S4->6hAApDa1LT8->",
        "F->Zr6W8d1305bHTzlQs7NS36PASi->Vm433C8d5OeitqXy->11jGL7IyP35->3UWflM->",
        "qbh0oITPZC40O->O0qJIVU3s3MvNhs0->5->l7p->7Y7c0QS7FS4DK5UG3971Ku->",
        "qEJV3m8P6nN0XA->x3U1UkFon57->s32b2qa7M913Qo->43->",
        "t3e49256a01B8W1DG8m37c->TOry03Q7zB7A5->EadeJXZe4Hhz6GwN->MYNe7d7m4->",
        "0RuXW5Ku42fF550e02v9",
    ];
    assert_eq!(buf.split_whitespace().collect::<Vec<&str>>(), expected);
}
