use cs260::defs::{ControlDependence, ProgramPoint as PointSet};
use cs260::domain::{Constant, Interval, Number};
use cs260::lir::{Location, ProgramPoint, Variable};
use cs260::report::{report_labels, sort_texts};
use cs260::store::Store;
use cs260::samples::{add_func, FunctionType, Student};
use cs260::stats::{parse_number, Stats};

fn pp(block: &str, location: Location) -> ProgramPoint {
    ProgramPoint { block: block.to_string(), location, instr: None, term: None }
}

#[test]
fn point_set_text_orders_naturally() {
    let v = PointSet::ProgramPointSet(vec![
        pp("bb1", Location::Terminal),
        pp("bb1", Location::Instruction(12)),
        pp("bb0", Location::Instruction(3)),
        pp("bb1", Location::Instruction(2)),
        pp("bb1", Location::Instruction(11)),
    ]);
    assert_eq!(v.to_string(), "{bb0.3, bb1.2, bb1.11, bb1.12, bb1.term}");
    assert_eq!(PointSet::Bottom.to_string(), "⊥");
    assert_eq!(PointSet::Top.to_string(), "Top");
    assert_eq!(PointSet::ProgramPointSet(vec![]).to_string(), "{}");
}

#[test]
fn value_texts() {
    assert_eq!(Number::Integer(-42).to_string(), "-42");
    assert_eq!(Number::Infinity.to_string(), "PosInf");
    assert_eq!(Number::NInfinity.to_string(), "NegInf");
    assert_eq!(Constant::CInt(7).to_string(), "7");
    assert_eq!(Constant::Bottom.to_string(), "⊥");
    assert_eq!(Constant::Top.to_string(), "Top");
    assert_eq!(Interval::Range(Number::Integer(1), Number::Integer(5)).to_string(), "[1, 5]");
    assert_eq!(Interval::Range(Number::NInfinity, Number::Integer(0)).to_string(), "(NegInf, 0]");
    assert_eq!(Interval::Range(Number::Integer(-3), Number::Infinity).to_string(), "[-3, PosInf)");
    assert_eq!(Interval::Range(Number::NInfinity, Number::Infinity).to_string(), "(NegInf, PosInf)");
    assert_eq!(Interval::Top.to_string(), "(NegInf, PosInf)");
    assert_eq!(Interval::Bottom.to_string(), "⊥");
}

#[test]
fn dependence_text_sorts_labels() {
    let v = ControlDependence::BlockSet(vec!["bb2".to_string(), "bb10".to_string(), "entry".to_string()]);
    assert_eq!(v.to_string(), "[\"bb10\", \"bb2\", \"entry\"]");
    assert_eq!(ControlDependence::Top.to_string(), "{}");
    assert_eq!(ControlDependence::Bottom.to_string(), "⊥");
}

#[test]
fn stats_lines_are_read() {
    let lines: Vec<String> = vec![
        "Number of fields across all struct types: 2",
        "Number of functions that return a value: 4",
        "Number of function parameters: 8",
        "Number of local variables: 1039",
        "Number of basic blocks: 391",
        "Number of instructions: 1234",
        "Number of terminals: 391",
        "Number of locals and globals with int type: 344",
        "Number of locals and globals with struct type: 21",
        "Number of locals and globals with pointer to int type: 195",
        "Number of locals and globals with pointer to struct type: 83",
        "Number of locals and globals with pointer to function type: 57",
        "Number of locals and globals with pointer to pointer type: 346",
        "Something else: 12",
        "Number of fields: across: 9",
        "",
    ]
    .into_iter()
    .map(|s| s.to_string())
    .collect();
    let st = Stats::read_stats_lines(&lines);
    assert_eq!(
        st,
        Stats {
            num_fields: 2,
            num_functions: 4,
            num_func_params: 8,
            num_locals: 1039,
            num_basic_blocks: 391,
            num_instructions: 1234,
            num_terminals: 391,
            num_ints: 344,
            num_structs: 21,
            num_ptr_ints: 195,
            num_ptr_structs: 83,
            num_ptr_funcs: 57,
            num_ptr_ptrs: 346,
        }
    );
}

#[test]
fn numbers_parse_like_u32() {
    assert_eq!(parse_number("0"), Some(0));
    assert_eq!(parse_number("+17"), Some(17));
    assert_eq!(parse_number("4294967295"), Some(u32::MAX));
    assert_eq!(parse_number("4294967296"), None);
    assert_eq!(parse_number(""), None);
    assert_eq!(parse_number("+"), None);
    assert_eq!(parse_number("-1"), None);
    assert_eq!(parse_number("12a"), None);
    assert_eq!(parse_number(" 1"), None);
    for s in ["0", "+17", "4294967295", "4294967296", "", "+", "-1", "12a", "007"] {
        assert_eq!(parse_number(s), s.parse::<u32>().ok());
    }
}

#[test]
fn samples_behave() {
    assert!(matches!(FunctionType::new(), FunctionType::Int));
    let mut s = Student { name: Some("zhangsan".to_string()), score: Some(1100) };
    s.add_score_with_10();
    s.add_score_with_10();
    assert_eq!(s.score, Some(1120));
    assert_eq!(s.name, Some("zhangsan".to_string()));
    assert_eq!(add_func(&10, &20), 30);
    assert_eq!(add_func(&11, &20), 100);
    assert_eq!(add_func(&-5, &2), -3);
}

#[test]
fn reports_sort_labels_and_names() {
    let mut texts = vec!["bb2".to_string(), "bb10".to_string(), "entry".to_string(), "bb1".to_string()];
    sort_texts(&mut texts);
    assert_eq!(texts, vec!["bb1", "bb10", "bb2", "entry"]);
    let mut full: Store<Constant> = Store::new();
    full.set(Variable::new("y"), Constant::Top);
    full.set(Variable::new("x"), Constant::CInt(1));
    let names: Vec<String> = full.variables_by_name().iter().map(|v| v.name.clone()).collect();
    assert_eq!(names, vec!["x", "y"]);
    let stores = vec![
        ("exit".to_string(), Store::<Constant>::new()),
        ("entry".to_string(), Store::<Constant>::new()),
        ("bb3".to_string(), full),
    ];
    assert_eq!(report_labels(&stores), vec!["bb3", "entry"]);
}

#[test]
fn integer_texts_cover_the_extremes() {
    assert_eq!(Constant::CInt(i32::MIN).to_string(), "-2147483648");
    assert_eq!(Constant::CInt(i32::MAX).to_string(), "2147483647");
    assert_eq!(Constant::CInt(0).to_string(), "0");
    assert_eq!(Number::Integer(-7).to_string(), "-7");
    assert_eq!(pp("bb3", Location::Instruction(120)).to_string(), "bb3.120");
    assert_eq!(ControlDependence::BlockSet(vec!["b\"q".to_string(), "a".to_string()]).to_string(), "[\"a\", \"b\\\"q\"]");
    assert_eq!(ControlDependence::BlockSet(vec![]).to_string(), "[]");
}
