use cs260::domain::Constant;
use cs260::lir::Variable;
use cs260::store::Store;

#[test]
fn test_generic_construction() {
    let mut store = Store::<Constant>::new();
    let var = Variable::new("x");
    let value = Constant::CInt(100);
    store.set(var.clone(), value.clone());
    println!("{:?}", store.get(&var).unwrap());
}

#[test]
fn test_get_set() {
    let mut store = Store::<Constant>::new();
    let var = Variable::new("x");
    let var1 = Variable::new("y");
    let value = Constant::CInt(100);
    store.set(var.clone(), value.clone());
    println!("getting var: {:?}", store.get(&var).unwrap());

    if let Some(val) = store.get(&var) {
        println!("Value: {:?}", val);
    } else {
        println!("Key not found");
    }

    if let Some(val) = store.get(&var1) {
        println!("Value: {:?}", val);
    } else {
        println!("Key not found");
    }
}
