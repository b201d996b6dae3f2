use cs260::analysis::{ConstantAnalyzer, IntervalAnalyzer};
use cs260::control::ControlDependenceAnalyzer;
use cs260::domain::{Constant, Interval, Number};
use cs260::lir::{ArithOp, Block, Function, Instruction, Location, Operand, Program, RelaOp, Terminal, Type, Variable};
use cs260::rdef::ReachingDefinitionAnalyzer;

fn var(name: &str) -> Variable {
    Variable::new(name)
}

fn block(id: &str, insts: Vec<Instruction>, term: Terminal) -> (String, Block) {
    (id.to_string(), Block { id: id.to_string(), insts, term })
}

fn program(locals: Vec<&str>, body: Vec<(String, Block)>) -> Program {
    let mut prog = Program::new();
    prog.functions.push((
        "test".to_string(),
        Function {
            id: "test".to_string(),
            ret_ty: Some(Type::Int),
            params: vec![],
            locals: locals.into_iter().map(var).collect(),
            body,
        },
    ));
    prog
}

fn straight() -> Program {
    program(
        vec!["x", "y"],
        vec![
            block(
                "entry",
                vec![Instruction::Copy { lhs: var("x"), op: Operand::CInt(1) }],
                Terminal::Jump("bb1".to_string()),
            ),
            block(
                "bb1",
                vec![Instruction::Arith {
                    lhs: var("y"),
                    aop: ArithOp::Add,
                    op1: Operand::Var(var("x")),
                    op2: Operand::CInt(2),
                }],
                Terminal::Ret(Some(Operand::Var(var("y")))),
            ),
        ],
    )
}

fn counting_loop() -> Program {
    program(
        vec!["x", "c"],
        vec![
            block(
                "entry",
                vec![Instruction::Copy { lhs: var("x"), op: Operand::CInt(0) }],
                Terminal::Jump("bb1".to_string()),
            ),
            block(
                "bb1",
                vec![Instruction::Cmp { lhs: var("c"), rop: RelaOp::Less, op1: Operand::Var(var("x")), op2: Operand::CInt(10) }],
                Terminal::Branch { cond: Operand::Var(var("c")), tt: "bb2".to_string(), ff: "bb3".to_string() },
            ),
            block(
                "bb2",
                vec![Instruction::Arith {
                    lhs: var("x"),
                    aop: ArithOp::Add,
                    op1: Operand::Var(var("x")),
                    op2: Operand::CInt(1),
                }],
                Terminal::Jump("bb1".to_string()),
            ),
            block("bb3", vec![], Terminal::Ret(Some(Operand::Var(var("x"))))),
        ],
    )
}

fn store_value<T: Copy>(stores: &Vec<(String, cs260::store::Store<T>)>, label: &str, v: &str) -> Option<T>
where
    T: cs260::semantics::AbstractSemantics,
{
    let st = &stores.iter().find(|(l, _)| l == label)?.1;
    st.get(&var(v)).copied()
}

#[test]
fn constant_analysis_of_straight_code() {
    let mut a = ConstantAnalyzer::new(straight(), "test");
    assert_eq!(a.worklist.len(), 1);
    let mut visited = a.mfp_start().unwrap();
    assert!(a.mfp_start().is_none());
    let mut steps = 0;
    while !a.worklist.is_empty() && steps < 100 {
        a.mfp_step(&mut visited).unwrap();
        steps += 1;
    }
    assert!(a.worklist.is_empty());
    assert_eq!(store_value(&a.bb2store, "bb1", "y"), Some(Constant::CInt(3)));
    assert_eq!(store_value(&a.bb2store, "bb1", "x"), Some(Constant::CInt(1)));
}

#[test]
fn constant_mfp_runs_to_the_fixpoint_once() {
    let mut a = ConstantAnalyzer::new(straight(), "test");
    assert!(a.mfp().is_ok());
    assert!(a.executed);
    assert!(a.worklist.is_empty());
    assert_eq!(store_value(&a.bb2store, "bb1", "y"), Some(Constant::CInt(3)));
    assert!(a.mfp().is_ok());
    assert_eq!(store_value(&a.bb2store, "bb1", "y"), Some(Constant::CInt(3)));
}

#[test]
fn interval_mfp_matches_the_stepwise_run() {
    let mut a = IntervalAnalyzer::new(counting_loop(), "test");
    a.mfp().unwrap();
    assert!(a.worklist.is_empty());
    let globals = a.global_ints.clone();
    let addrofs = a.addrof_ints.clone();
    a.mfp().unwrap();
    assert_eq!(a.global_ints, globals);
    assert_eq!(a.addrof_ints, addrofs);
    let mut b = IntervalAnalyzer::new(counting_loop(), "test");
    let headers = b.cfg.get_loop_headers();
    let mut visited = b.mfp_start().unwrap();
    while !b.worklist.is_empty() {
        b.mfp_step(&mut visited, &headers).unwrap();
    }
    for (label, _) in &a.bb2store {
        for v in ["x", "c"] {
            assert_eq!(store_value(&a.bb2store, label, v), store_value(&b.bb2store, label, v));
        }
    }
}

#[test]
fn interval_analysis_widens_at_the_loop_header() {
    let mut a = IntervalAnalyzer::new(counting_loop(), "test");
    let headers = a.cfg.get_loop_headers();
    assert_eq!(headers, vec!["bb1".to_string()]);
    let mut visited = a.mfp_start().unwrap();
    let mut steps = 0;
    while !a.worklist.is_empty() && steps < 1000 {
        a.mfp_step(&mut visited, &headers).unwrap();
        steps += 1;
    }
    assert!(a.worklist.is_empty());
    let x = store_value(&a.bb2store, "bb3", "x").unwrap();
    match x {
        Interval::Range(lo, _) => assert_eq!(lo, Number::Integer(0)),
        other => panic!("unexpected interval {}", other.to_string()),
    }
}

#[test]
fn reaching_definitions_of_straight_code() {
    let prog = program(
        vec!["x", "y"],
        vec![block(
            "entry",
            vec![
                Instruction::Copy { lhs: var("x"), op: Operand::CInt(1) },
                Instruction::Arith { lhs: var("y"), aop: ArithOp::Add, op1: Operand::Var(var("x")), op2: Operand::CInt(2) },
            ],
            Terminal::Ret(Some(Operand::Var(var("y")))),
        )],
    );
    let mut rd = ReachingDefinitionAnalyzer::new(prog, "test");
    assert_eq!(rd.solution.len(), 3);
    rd.mfp().unwrap();
    assert!(rd.worklist.is_empty());
    let text = |loc: Location| {
        rd.solution
            .iter()
            .find(|((b, l), _)| b == "entry" && *l == loc)
            .map(|(_, v)| v.to_string())
            .unwrap()
    };
    assert_eq!(text(Location::Instruction(0)), "{}");
    assert_eq!(text(Location::Instruction(1)), "{entry.0}");
    assert_eq!(text(Location::Terminal), "{entry.1}");
}

fn diamond() -> Program {
    program(
        vec![],
        vec![
            block(
                "entry",
                vec![],
                Terminal::Branch { cond: Operand::CInt(1), tt: "bb1".to_string(), ff: "bb2".to_string() },
            ),
            block("bb1", vec![], Terminal::Jump("bb3".to_string())),
            block("bb2", vec![], Terminal::Jump("bb3".to_string())),
            block("bb3", vec![], Terminal::Ret(None)),
        ],
    )
}

#[test]
fn control_dependence_frontiers_of_a_diamond() {
    let prog = diamond();
    let mut c = ControlDependenceAnalyzer::new(prog, "test");
    let s = |v: &[&str]| v.iter().map(|x| x.to_string()).collect::<Vec<String>>();
    let dominators = vec![
        ("entry".to_string(), s(&["entry"])),
        ("bb1".to_string(), s(&["entry", "bb1"])),
        ("bb2".to_string(), s(&["entry", "bb2"])),
        ("bb3".to_string(), s(&["entry", "bb3"])),
    ];
    c.execute_with(&dominators);
    assert!(c.executed);
    fn frontier_of(c: &ControlDependenceAnalyzer, l: &str) -> Vec<String> {
        c.solution.iter().find(|(k, _)| k == l).unwrap().1.clone()
    }
    assert_eq!(frontier_of(&c, "entry"), Vec::<String>::new());
    assert_eq!(frontier_of(&c, "bb1"), s(&["bb3"]));
    assert_eq!(frontier_of(&c, "bb2"), s(&["bb3"]));
    assert_eq!(frontier_of(&c, "bb3"), Vec::<String>::new());
    c.execute_with(&dominators);
    assert_eq!(frontier_of(&c, "bb1"), s(&["bb3"]));
    let mut d = ControlDependenceAnalyzer::new(diamond(), "test");
    d.execute();
    assert_eq!(d.solution, c.solution);
    let computed = c.cfg.get_dominators();
    assert_eq!(computed.len(), 4);
    for ((l1, d1), (l2, d2)) in computed.iter().zip(dominators.iter()) {
        assert_eq!(l1, l2);
        let mut a = d1.clone();
        a.sort();
        let mut b = d2.clone();
        b.sort();
        assert_eq!(a, b);
    }
}

#[test]
fn dominators_of_a_loop() {
    let prog = counting_loop();
    let cfg = cs260::cfg::ControlFlowGraph::from_function(&prog, "test");
    let doms = cfg.get_dominators();
    let of = |l: &str| {
        let mut d = doms.iter().find(|(k, _)| k == l).unwrap().1.clone();
        d.sort();
        d
    };
    assert_eq!(of("entry"), vec!["entry"]);
    assert_eq!(of("bb1"), vec!["bb1", "entry"]);
    assert_eq!(of("bb2"), vec!["bb1", "bb2", "entry"]);
    assert_eq!(of("bb3"), vec!["bb1", "bb3", "entry"]);
}

fn run_to_fixpoint<A: cs260::execution::AbstractExecution>(a: &mut A) {
    a.mfp().unwrap();
}

#[test]
fn analyzers_run_through_their_common_interface() {
    let mut c = ConstantAnalyzer::new(straight(), "test");
    run_to_fixpoint(&mut c);
    assert_eq!(store_value(&c.bb2store, "bb1", "y"), Some(Constant::CInt(3)));
    let mut i = IntervalAnalyzer::new(straight(), "test");
    run_to_fixpoint(&mut i);
    assert_eq!(
        store_value(&i.bb2store, "bb1", "y"),
        Some(Interval::Range(Number::Integer(3), Number::Integer(3)))
    );
    let mut one = ConstantAnalyzer::new(straight(), "test");
    let instr = Instruction::Copy { lhs: var("x"), op: Operand::CInt(5) };
    cs260::execution::AbstractExecution::exe_instr(&mut one, &instr, "entry").unwrap();
    assert_eq!(store_value(&one.bb2store, "entry", "x"), Some(Constant::CInt(5)));
    assert!(cs260::execution::AbstractExecution::exe_instr(&mut one, &instr, "nowhere").is_err());
}
