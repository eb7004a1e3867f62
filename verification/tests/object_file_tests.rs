use inv_call_extract::linker::object_file::ObjectFile;
use inv_call_extract::linker::object_file::SymPtr::{C, F, O, P};
use inv_call_extract::linker::symbol::{FCall, Function, Object, PtsTo};

#[test]
fn test_func_add() {
    let mut obj = ObjectFile::new();
    assert_eq!(obj.add_function(Function::new("f1".to_string(), true)), (F(0), false));
    assert_eq!(obj.add_function(Function::new("f2".to_string(), false)), (F(1), false));
    // Check symbol merge
    // Updating external flag is not supposed here
    assert!(obj.functions[0].is_external());
    assert_eq!(obj.add_function(Function::new("f1".to_string(), false)), (F(0), true));
    assert!(obj.functions[0].is_external());
    assert!(!obj.functions[1].is_external());
}

#[test]
fn test_link() {
    let mut obj1 = ObjectFile::new();
    let mut obj2 = ObjectFile::new();

    // Init object 1
    assert_eq!(obj1.add_function(Function::new("static11".to_string(), false)), (F(0), false));
    assert_eq!(obj1.add_function(Function::new("static12".to_string(), false)), (F(1), false));
    assert_eq!(obj1.add_function(Function::new("shared1".to_string(), false)), (F(2), false));
    assert_eq!(obj1.add_function(Function::new("shared2".to_string(), true)), (F(3), false));
    assert_eq!(obj1.add_object(Object::new(vec![None, Some(F(0)), Some(F(3))])), O(0));
    assert_eq!(obj1.add_points_to(PtsTo::new(vec![F(1), F(3), O(0)])), P(0));
    assert_eq!(obj1.add_points_to(PtsTo::new(vec![F(1), F(3)])), P(1));
    assert_eq!(obj1.add_fcall(FCall::new(F(0), vec![Some(F(1)), None, Some(F(3))])), C(0));
    assert_eq!(
        obj1.add_fcall(FCall::new_with_callsite(P(0), vec![None, Some(O(0)), Some(F(3))], F(1))),
        C(1)
    );

    // Init object 2
    assert_eq!(obj2.add_function(Function::new("static21".to_string(), false)), (F(0), false));
    assert_eq!(obj2.add_function(Function::new("shared1".to_string(), true)), (F(1), false));
    assert_eq!(obj2.add_function(Function::new("static22".to_string(), false)), (F(2), false));
    assert_eq!(obj2.add_function(Function::new("shared2".to_string(), false)), (F(3), false));
    assert_eq!(obj2.add_object(Object::new(vec![Some(F(1)), Some(F(1))])), O(0));
    assert_eq!(obj2.add_points_to(PtsTo::new(vec![F(1), F(3), O(0), F(2), F(0)])), P(0));
    assert_eq!(obj2.add_points_to(PtsTo::new(vec![F(0), F(1), F(3)])), P(1));
    assert_eq!(
        obj2.add_fcall(FCall::new_with_callsite(P(0), vec![None, Some(P(1)), None], F(3))),
        C(0)
    );
    assert_eq!(obj2.add_fcall(FCall::new(F(1), vec![Some(O(0)), Some(F(1))])), C(1));
    // Link objects now
    obj1.link(obj2);

    // Check functions
    let total_f = ["static11", "static12", "shared1", "shared2", "static21", "static22"];
    assert_eq!(total_f.len(), obj1.functions.len());
    for (i, f) in total_f.iter().enumerate() {
        assert_eq!(obj1.get_fun_id(f), Some(i));
    }
    assert!(!obj1.get_fun_by_name("shared1").unwrap().is_external());
    assert!(!obj1.get_fun_by_name("shared2").unwrap().is_external());

    // Check objects
    assert_eq!(obj1.objects.len(), 2);
    assert_eq!(obj1.objects[0], Object::new(vec![None, Some(F(0)), Some(F(3))]));
    assert_eq!(obj1.objects[1], Object::new(vec![Some(F(2)), Some(F(2))]));

    // Check points-to
    assert_eq!(obj1.points_to.len(), 4);
    assert_eq!(obj1.points_to[0], PtsTo::new(vec![F(1), F(3), O(0)]));
    assert_eq!(obj1.points_to[1], PtsTo::new(vec![F(1), F(3)]));
    assert_eq!(obj1.points_to[2], PtsTo::new(vec![F(2), F(3), O(1), F(5), F(4)]));
    assert_eq!(obj1.points_to[3], PtsTo::new(vec![F(4), F(2), F(3)]));

    // Check calls
    assert_eq!(obj1.calls.len(), 4);
    assert_eq!(obj1.calls[0], FCall::new(F(0), vec![Some(F(1)), None, Some(F(3))]));
    assert_eq!(
        obj1.calls[1],
        FCall::new_with_callsite(P(0), vec![None, Some(O(0)), Some(F(3))], F(1))
    );
    assert_eq!(obj1.calls[2], FCall::new_with_callsite(P(2), vec![None, Some(P(3)), None], F(3)));
    assert_eq!(obj1.calls[3], FCall::new(F(2), vec![Some(O(1)), Some(F(2))]));
}

#[test]
fn test_symbol_merge_flags() {
    // Linking {f1, f2 external} with {f2 internal, f3} yields exactly three
    // functions, and f2 comes out internal.
    let mut a = ObjectFile::new();
    a.add_function(Function::new("f1".to_string(), false));
    a.add_function(Function::new("f2".to_string(), true));
    let mut b = ObjectFile::new();
    b.add_function(Function::new("f2".to_string(), false));
    b.add_function(Function::new("f3".to_string(), false));
    let merged = ObjectFile::link_consuming(a, b);
    assert_eq!(merged.functions.len(), 3);
    assert!(!merged.get_fun_by_name("f2").unwrap().is_external());
}

#[test]
fn test_get_referenced_functions() {
    let mut obj = ObjectFile::new();
    obj.add_function(Function::new("f1".to_string(), false));
    obj.add_function(Function::new("f2".to_string(), false));
    obj.add_object(Object::new(vec![None]));
    obj.add_points_to(PtsTo::new(vec![F(1), O(0), F(0)]));
    assert_eq!(obj.get_referenced_functions(F(1)), vec![1]);
    // Non-function members of the set are discarded.
    assert_eq!(obj.get_referenced_functions(P(0)), vec![1, 0]);
}

#[test]
fn test_get_mut_fun_by_name() {
    let mut obj = ObjectFile::new();
    obj.add_function(Function::new("f1".to_string(), true));
    assert!(obj.get_mut_fun_by_name("missing").is_none());
    obj.get_mut_fun_by_name("f1").unwrap().set_external(false);
    assert!(!obj.get_fun_by_name("f1").unwrap().is_external());
}
