use cs260::cfg::ControlFlowGraph;
use cs260::lir::{Block, Field, Function, Instruction, Operand, Program, Terminal, Type, Variable};

fn typed(name: &str, typ: Type, scope: &str) -> Variable {
    Variable { name: name.to_string(), typ, scope: Some(scope.to_string()) }
}

fn ptr(t: Type) -> Type {
    Type::Pointer(Box::new(t))
}

fn function(id: &str, params: Vec<Variable>, locals: Vec<Variable>, body: Vec<(String, Block)>) -> (String, Function) {
    (id.to_string(), Function { id: id.to_string(), ret_ty: Some(Type::Int), params, locals, body })
}

/// A small program with a struct, int and pointer globals, and two functions.
fn sample_program() -> Program {
    let mut prog = Program::new();
    prog.structs.push((
        "S".to_string(),
        vec![
            Field { name: "a".to_string(), typ: Type::Int },
            Field { name: "p".to_string(), typ: ptr(Type::Int) },
        ],
    ));
    prog.globals.push(typed("g1", Type::Int, "global"));
    prog.globals.push(typed("g2", ptr(Type::Struct("S".to_string())), "global"));
    prog.functions.push(function(
        "main",
        vec![typed("argc", Type::Int, "main")],
        vec![typed("x", Type::Int, "main"), typed("q", ptr(Type::Int), "main")],
        vec![("entry".to_string(), Block::new("entry", &Terminal::Ret(None)))],
    ));
    let entry = Block {
        id: "entry".to_string(),
        insts: vec![Instruction::AddrOf { lhs: typed("u", ptr(Type::Int), "add"), rhs: typed("t", Type::Int, "add") }],
        term: Terminal::Ret(None),
    };
    prog.functions.push(function(
        "add",
        vec![typed("a", Type::Int, "add"), typed("b", ptr(Type::Int), "add")],
        vec![typed("t", Type::Int, "add"), typed("u", ptr(Type::Int), "add")],
        vec![("entry".to_string(), entry)],
    ));
    prog
}

fn names(vs: &Vec<Variable>) -> Vec<String> {
    vs.iter().map(|v| v.name.clone()).collect()
}

fn same_types(got: &Vec<Type>, expected: &Vec<Type>) -> bool {
    got.len() == expected.len() && expected.iter().all(|t| got.contains(t))
}

#[test]
fn test_get_globals() {
    let prog = sample_program();
    let global_ints = prog.get_int_globals();
    let param_ints = prog.get_int_parameters("main");
    let local_ints = prog.get_int_locals("main");
    println!("======= int-type globals =======");
    for var in &global_ints {
        println!("{:?}", var);
    }
    assert_eq!(names(&global_ints), vec!["g1"]);
    assert_eq!(names(&param_ints), vec!["argc"]);
    assert_eq!(names(&local_ints), vec!["x"]);
}

#[test]
fn test_reachable_types() {
    let prog = sample_program();
    let g2 = &prog.globals[1];
    let reachable = g2.typ.reachable_types(&prog);
    for (i, t) in reachable.iter().enumerate() {
        println!("{}: {:#?}", i, t);
    }
    assert!(same_types(&reachable, &vec![ptr(Type::Struct("S".to_string())), Type::Int, ptr(Type::Int)]));
    let s = Type::Struct("S".to_string());
    assert!(same_types(&s.reachable_types(&prog), &vec![Type::Int, ptr(Type::Int)]));
    let add = &prog.functions[1].1;
    let b = &add.params[1];
    assert!(same_types(&b.typ.reachable_types(&prog), &vec![ptr(Type::Int), Type::Int]));
    assert!(same_types(&add.params[0].typ.reachable_types(&prog), &vec![Type::Int]));
}

#[test]
fn test_get_variables() {
    let prog = sample_program();
    assert_eq!(names(&prog.get_int_globals()), vec!["g1"]);
    assert_eq!(names(&prog.get_ptr_globals()), vec!["g2"]);
    assert_eq!(names(&prog.get_int_locals("add")), vec!["t"]);
    assert_eq!(names(&prog.get_ptr_locals("add")), vec!["u"]);
    assert_eq!(names(&prog.get_int_parameters("add")), vec!["a"]);
    assert_eq!(names(&prog.get_ptr_parameters("add")), vec!["b"]);
}

#[test]
fn test_get_addr_taken() {
    let prog = sample_program();
    let addr_taken = prog.get_addr_taken("add");
    for (i, var) in addr_taken.iter().enumerate() {
        println!("{}: {:#?}", i, var);
    }
    assert_eq!(addr_taken.len(), 5);
    let fakes: Vec<Type> = addr_taken[..3].iter().map(|v| v.typ.clone()).collect();
    for v in &addr_taken[..3] {
        assert_eq!(v.name, "fake_var");
        assert_eq!(v.scope, Some("fake".to_string()));
    }
    assert!(same_types(&fakes, &vec![ptr(Type::Struct("S".to_string())), Type::Int, ptr(Type::Int)]));
    assert_eq!(addr_taken[3], typed("t", Type::Int, "add"));
    assert_eq!(addr_taken[4], typed("g1", Type::Int, "global"));
}

/// A function `test` whose entry branches to two blocks that join again.
fn branching_program() -> Program {
    let mut prog = sample_program();
    let cond = typed("c", Type::Int, "test");
    let blocks = vec![
        (
            "entry".to_string(),
            Block::new(
                "entry",
                &Terminal::Branch { cond: Operand::Var(cond.clone()), tt: "bb1".to_string(), ff: "bb2".to_string() },
            ),
        ),
        ("bb1".to_string(), Block::new("bb1", &Terminal::Jump("exit".to_string()))),
        ("bb2".to_string(), Block::new("bb2", &Terminal::Jump("exit".to_string()))),
        ("exit".to_string(), Block::new("exit", &Terminal::Ret(None))),
    ];
    prog.functions.push(function("test", vec![], vec![cond], blocks));
    prog
}

#[test]
fn test_example_program() {
    let prog = branching_program();
    println!("number for basic blocks: {}", prog.get_num_basic_blocks());
    assert_eq!(prog.get_num_basic_blocks(), 6);
    assert_eq!(prog.get_all_basic_blocks().len(), 6);
}

#[test]
fn test_example_function() {
    let prog = branching_program();
    let cfg: ControlFlowGraph = ControlFlowGraph::from_function(&prog, "test");
    let labels: Vec<&String> = cfg.nodes.iter().map(|(l, _)| l).collect();
    println!("all block labels: {:?}", labels);
    println!("all edges: {:?}", cfg.edges);
    let order = cfg.topological_sort();
    println!("topo orders of blocks: {:?}", order);
    assert_eq!(labels, vec!["entry", "bb1", "bb2", "exit"]);
    assert_eq!(
        cfg.edges,
        vec![
            ("entry".to_string(), "bb1".to_string()),
            ("entry".to_string(), "bb2".to_string()),
            ("bb1".to_string(), "exit".to_string()),
            ("bb2".to_string(), "exit".to_string()),
        ]
    );
    let rank = |l: &str| order.iter().find(|(k, _)| k == l).map(|(_, n)| *n).unwrap();
    assert_eq!(rank("entry"), 0);
    assert_eq!(rank("exit"), 3);
    assert!(rank("bb1") < rank("exit") && rank("bb2") < rank("exit"));
}

#[test]
fn reachable_types_of_a_recursive_struct() {
    let mut prog = Program::new();
    prog.structs.push((
        "node".to_string(),
        vec![
            Field { name: "val".to_string(), typ: Type::Int },
            Field { name: "next".to_string(), typ: ptr(Type::Struct("node".to_string())) },
        ],
    ));
    let node = Type::Struct("node".to_string());
    let found = ptr(node.clone()).reachable_types(&prog);
    assert!(same_types(&found, &vec![ptr(node.clone()), Type::Int]));
    let mut res = vec![ptr(ptr(Type::Int))];
    node.reaching_types(&prog, &mut res);
    assert!(same_types(&res, &vec![ptr(ptr(Type::Int)), ptr(node.clone()), Type::Int]));
    let f = Type::Function(Box::new(cs260::lir::FunctionType { ret_ty: None, param_ty: vec![] }));
    assert!(f.reachable_types(&prog).is_empty());
}
