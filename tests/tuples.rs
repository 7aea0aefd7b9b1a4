use brainrot::{TupleMath, TupleMathEq};

#[test]
fn test_tuple0_math() {
    // Empty tuple
    assert!(!().at_least_1_eq(1));
    assert!(!().at_least_2_eq(1));
    assert!(!().at_least_3_eq(1));
    assert!(!().at_least_4_eq(1));
}

#[test]
fn test_tuple1_math() {
    // 1-tuple
    assert!(!(0,).at_least_1_eq(1));
    assert!(!(0,).at_least_2_eq(1));
    assert!(!(0,).at_least_3_eq(1));
    assert!(!(0,).at_least_4_eq(1));
    
    assert!( (1,).at_least_1_eq(1));
    assert!(!(1,).at_least_2_eq(1));
    assert!(!(1,).at_least_3_eq(1));
    assert!(!(1,).at_least_4_eq(1));
}

#[test]
fn test_tuple2_math() {
    // 2-tuple permutations
    assert!(!(0,0).at_least_1_eq(1));
    assert!(!(0,0).at_least_2_eq(1));
    assert!(!(0,0).at_least_3_eq(1));
    assert!(!(0,0).at_least_4_eq(1));
    
    assert!( (0,1).at_least_1_eq(1));
    assert!(!(0,1).at_least_2_eq(1));
    assert!(!(0,1).at_least_3_eq(1));
    assert!(!(0,1).at_least_4_eq(1));
    
    assert!( (1,0).at_least_1_eq(1));
    assert!(!(1,0).at_least_2_eq(1));
    assert!(!(1,0).at_least_3_eq(1));
    assert!(!(1,0).at_least_4_eq(1));
    
    assert!( (1,1).at_least_1_eq(1));
    assert!( (1,1).at_least_2_eq(1));
    assert!(!(1,1).at_least_3_eq(1));
    assert!(!(1,1).at_least_4_eq(1));
}

#[test]
fn test_tuple3_math() {
    // 3-tuple
    assert!(!(0,0,0).at_least_1_eq(1));
    assert!(!(0,0,0).at_least_2_eq(1));
    assert!(!(0,0,0).at_least_3_eq(1));
    assert!(!(0,0,0).at_least_4_eq(1));
    
    // 3-tuple permutations with 1
    assert!( (1,0,0).at_least_1_eq(1));
    assert!(!(1,0,0).at_least_2_eq(1));
    assert!(!(1,0,0).at_least_3_eq(1));
    assert!(!(1,0,0).at_least_4_eq(1));
    
    assert!( (0,1,0).at_least_1_eq(1));
    assert!(!(0,1,0).at_least_2_eq(1));
    assert!(!(0,1,0).at_least_3_eq(1));
    assert!(!(0,1,0).at_least_4_eq(1));
    
    assert!( (0,0,1).at_least_1_eq(1));
    assert!(!(0,0,1).at_least_2_eq(1));
    assert!(!(0,0,1).at_least_3_eq(1));
    assert!(!(0,0,1).at_least_4_eq(1));
    
    // 3-tuple permutations with 2
    assert!( (1,1,0).at_least_1_eq(1));
    assert!( (1,1,0).at_least_2_eq(1));
    assert!(!(1,1,0).at_least_3_eq(1));
    assert!(!(1,1,0).at_least_4_eq(1));
    
    assert!( (0,1,1).at_least_1_eq(1));
    assert!( (0,1,1).at_least_2_eq(1));
    assert!(!(0,1,1).at_least_3_eq(1));
    assert!(!(0,1,1).at_least_4_eq(1));

    assert!( (1,0,1).at_least_1_eq(1));
    assert!( (1,0,1).at_least_2_eq(1));
    assert!(!(1,0,1).at_least_3_eq(1));
    assert!(!(1,0,1).at_least_4_eq(1));
    
    // 3-tuple with 3
    assert!( (1,1,1).at_least_1_eq(1));
    assert!( (1,1,1).at_least_2_eq(1));
    assert!( (1,1,1).at_least_3_eq(1));
    assert!(!(1,1,1).at_least_4_eq(1));
}

#[test]
fn test_tuple4_math() {
    // 4-tuple
    assert!(!(0,0,0,0).at_least_1_eq(1));
    assert!(!(0,0,0,0).at_least_2_eq(1));
    assert!(!(0,0,0,0).at_least_3_eq(1));
    assert!(!(0,0,0,0).at_least_4_eq(1));
    
    // 4-tuple permutations with 1
    assert!( (1,0,0,0).at_least_1_eq(1));
    assert!(!(1,0,0,0).at_least_2_eq(1));
    assert!(!(1,0,0,0).at_least_3_eq(1));
    assert!(!(1,0,0,0).at_least_4_eq(1));
    
    assert!( (0,1,0,0).at_least_1_eq(1));
    assert!(!(0,1,0,0).at_least_2_eq(1));
    assert!(!(0,1,0,0).at_least_3_eq(1));
    assert!(!(0,1,0,0).at_least_4_eq(1));
    
    assert!( (0,0,1,0).at_least_1_eq(1));
    assert!(!(0,0,1,0).at_least_2_eq(1));
    assert!(!(0,0,1,0).at_least_3_eq(1));
    assert!(!(0,0,1,0).at_least_4_eq(1));
    
    assert!( (0,0,0,1).at_least_1_eq(1));
    assert!(!(0,0,0,1).at_least_2_eq(1));
    assert!(!(0,0,0,1).at_least_3_eq(1));
    assert!(!(0,0,0,1).at_least_4_eq(1));
    
    // 4-tuple permutations with 2
    assert!( (1,1,0,0).at_least_1_eq(1));
    assert!( (1,1,0,0).at_least_2_eq(1));
    assert!(!(1,1,0,0).at_least_3_eq(1));
    assert!(!(1,1,0,0).at_least_4_eq(1));
    
    assert!( (0,1,1,0).at_least_1_eq(1));
    assert!( (0,1,1,0).at_least_2_eq(1));
    assert!(!(0,1,1,0).at_least_3_eq(1));
    assert!(!(0,1,1,0).at_least_4_eq(1));
    
    assert!( (0,0,1,1).at_least_1_eq(1));
    assert!( (0,0,1,1).at_least_2_eq(1));
    assert!(!(0,0,1,1).at_least_3_eq(1));
    assert!(!(0,0,1,1).at_least_4_eq(1));
    
    assert!( (1,0,1,0).at_least_1_eq(1));
    assert!( (1,0,1,0).at_least_2_eq(1));
    assert!(!(1,0,1,0).at_least_3_eq(1));
    assert!(!(1,0,1,0).at_least_4_eq(1));
    
    assert!( (0,1,0,1).at_least_1_eq(1));
    assert!( (0,1,0,1).at_least_2_eq(1));
    assert!(!(0,1,0,1).at_least_3_eq(1));
    assert!(!(0,1,0,1).at_least_4_eq(1));
    
    assert!( (1,0,0,1).at_least_1_eq(1));
    assert!( (1,0,0,1).at_least_2_eq(1));
    assert!(!(1,0,0,1).at_least_3_eq(1));
    assert!(!(1,0,0,1).at_least_4_eq(1));
    
    // 4-tuple permutations with 3
    assert!( (1,1,1,0).at_least_1_eq(1));
    assert!( (1,1,1,0).at_least_2_eq(1));
    assert!( (1,1,1,0).at_least_3_eq(1));
    assert!(!(1,1,1,0).at_least_4_eq(1));
    
    assert!( (0,1,1,1).at_least_1_eq(1));
    assert!( (0,1,1,1).at_least_2_eq(1));
    assert!( (0,1,1,1).at_least_3_eq(1));
    assert!(!(0,1,1,1).at_least_4_eq(1));
    
    assert!( (1,1,0,1).at_least_1_eq(1));
    assert!( (1,1,0,1).at_least_2_eq(1));
    assert!( (1,1,0,1).at_least_3_eq(1));
    assert!(!(1,1,0,1).at_least_4_eq(1));
    
    assert!( (1,0,1,1).at_least_1_eq(1));
    assert!( (1,0,1,1).at_least_2_eq(1));
    assert!( (1,0,1,1).at_least_3_eq(1));
    assert!(!(1,0,1,1).at_least_4_eq(1));
    
    // 4-tuple with 4
    assert!( (1,1,1,1).at_least_1_eq(1));
    assert!( (1,1,1,1).at_least_2_eq(1));
    assert!( (1,1,1,1).at_least_3_eq(1));
    assert!( (1,1,1,1).at_least_4_eq(1));
}

#[test]
fn tuple_predicates_take_closures() {
    assert!((1, 2, 3).at_least_2(|v| v >= 2));
    assert!(!(1, 2, 3).at_least_3(|v| v >= 2));
    assert!((5,).at_least_1(|v| v == 5));
    assert!(!().at_least_1(|v: i32| v == 5));
}

#[test]
fn tuple_either_or() {
    assert!((1, 2, 3, 4).at_least_2_is_either_or(2, 4));
    assert!(!(1, 2, 3, 4).at_least_3_is_either_or(2, 4));
    assert!((2, 4, 2, 4).at_least_4_is_either_or(2, 4));
    assert!(!(0, 0).at_least_1_is_either_or(1, 2));
}
