use fastdata_tfrecord::add;

#[test]
fn it_works() {}

#[test]
fn lib_it_works() {
    let result = add(2, 2);
    assert_eq!(result, 4);
}
