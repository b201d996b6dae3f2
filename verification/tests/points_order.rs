use cs260::analysis::able_to_reach_int;
use cs260::defs;
use cs260::lir::{Location, ProgramPoint, Type};
use cs260::points::sort_points;

fn pp(block: &str, location: Location) -> ProgramPoint {
    ProgramPoint {
        block: block.to_string(),
        location,
        instr: None,
        term: None,
    }
}

#[test]
fn test_hashset_macro() {
    let pp_domain = defs::ProgramPoint::ProgramPointSet(vec![
        pp("bb1", Location::Instruction(2)),
        pp("bb1", Location::Instruction(11)),
        pp("bb1", Location::Instruction(12)),
        pp("bb1", Location::Terminal),
    ]);
    println!("{}", pp_domain.to_string());
}

#[test]
fn test_able_to_reach_int() {
    let i = Type::Int;
    let p = Type::Pointer(Box::new(Type::Int));
    let pp = Type::Pointer(Box::new(Type::Pointer(Box::new(Type::Int))));
    let ppp = Type::Pointer(Box::new(Type::Pointer(Box::new(Type::Pointer(
        Box::new(Type::Int),
    )))));
    println!("i can reach int?: {}", able_to_reach_int(&Box::new(i)));
    println!("p can reach int?: {}", able_to_reach_int(&Box::new(p)));
    println!("pp can reach int?: {}", able_to_reach_int(&Box::new(pp)));
    println!("ppp can reach int?: {}", able_to_reach_int(&Box::new(ppp)));
}

#[test]
fn test_location_order() {
    let loc1 = Location::Instruction(1);
    let loc2 = Location::Instruction(2);
    let loc11 = Location::Instruction(11);
    let term = Location::Terminal;
    let mut v = vec![loc1, term, loc11, loc2];
    v.sort();
    println!("{:?}", v);
}

#[test]
fn test_pps_order() {
    let mut pps = vec![
        pp("bb8", Location::Terminal),
        pp("bb7", Location::Terminal),
        pp("bb13", Location::Instruction(3)),
        pp("bb17", Location::Terminal),
        pp("bb13", Location::Instruction(0)),
        pp("bb12", Location::Instruction(2)),
        pp("bb12", Location::Instruction(1)),
        pp("bb6", Location::Instruction(2)),
        pp("entry", Location::Instruction(12)),
        pp("bb12", Location::Terminal),
        pp("bb6", Location::Instruction(1)),
        pp("bb13", Location::Instruction(2)),
        pp("bb12", Location::Instruction(0)),
        pp("entry", Location::Instruction(6)),
        pp("entry", Location::Terminal),
        pp("bb17", Location::Instruction(2)),
        pp("entry", Location::Instruction(4)),
        pp("entry", Location::Instruction(7)),
        pp("entry", Location::Instruction(11)),
        pp("bb12", Location::Instruction(4)),
        pp("entry", Location::Instruction(5)),
        pp("entry", Location::Instruction(13)),
        pp("bb5", Location::Terminal),
        pp("entry", Location::Instruction(2)),
        pp("entry", Location::Instruction(3)),
        pp("bb17", Location::Instruction(0)),
        pp("bb12", Location::Instruction(3)),
        pp("bb6", Location::Instruction(3)),
        pp("entry", Location::Instruction(9)),
        pp("bb13", Location::Instruction(4)),
        pp("bb13", Location::Terminal),
        pp("bb6", Location::Terminal),
        pp("bb4", Location::Terminal),
        pp("bb11", Location::Terminal),
    ];
    sort_points(&mut pps);
    let line: Vec<String> = pps.iter().map(|pp| format!("{}, ", pp.to_string())).collect();
    println!("{}", line.concat());

    let res = vec![
        "bb11.term".to_string(),
        "bb12.0".to_string(),
        "bb12.1".to_string(),
        "bb12.2".to_string(),
        "bb12.3".to_string(),
        "bb12.4".to_string(),
        "bb12.term".to_string(),
        "bb13.0".to_string(),
        "bb13.2".to_string(),
        "bb13.3".to_string(),
        "bb13.4".to_string(),
        "bb13.term".to_string(),
        "bb17.0".to_string(),
        "bb17.2".to_string(),
        "bb17.term".to_string(),
        "bb4.term".to_string(),
        "bb5.term".to_string(),
        "bb6.1".to_string(),
        "bb6.2".to_string(),
        "bb6.3".to_string(),
        "bb6.term".to_string(),
        "bb7.term".to_string(),
        "bb8.term".to_string(),
        "entry.2".to_string(),
        "entry.3".to_string(),
        "entry.4".to_string(),
        "entry.5".to_string(),
        "entry.6".to_string(),
        "entry.7".to_string(),
        "entry.9".to_string(),
        "entry.11".to_string(),
        "entry.12".to_string(),
        "entry.13".to_string(),
        "entry.term".to_string(),
    ];
    assert_eq!(pps.iter().map(|pp| pp.to_string()).collect::<Vec<String>>(), res);
}
