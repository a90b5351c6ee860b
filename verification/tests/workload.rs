use kagi::workload::{
    after_attempt, batch_sizes, deserialize_values, serialize_values, update_values, Attempt,
    Operation,
};
use kagi::Error;

fn fields(pairs: &[(&str, &str)]) -> Vec<(Vec<u8>, Vec<u8>)> {
    pairs.iter().map(|(n, v)| (n.as_bytes().to_vec(), v.as_bytes().to_vec())).collect()
}

#[test]
fn fields_are_joined() {
    assert_eq!(serialize_values(&fields(&[])), b"".to_vec());
    assert_eq!(serialize_values(&fields(&[("a", "1")])), b"a=1".to_vec());
    let three = fields(&[("field0", "x"), ("field1", ""), ("", "y")]);
    assert_eq!(serialize_values(&three), b"field0=x,field1=,=y".to_vec());
}

#[test]
fn records_are_read_back() {
    let values = fields(&[("field0", "x"), ("field1", "yy"), ("field2", "")]);
    assert_eq!(deserialize_values(&serialize_values(&values)), values);
}

#[test]
fn the_last_field_of_a_name_counts() {
    assert_eq!(deserialize_values(b"a=1,b=2,a=3"), fields(&[("a", "3"), ("b", "2")]));
    // What stands behind a second name separator is not read.
    assert_eq!(deserialize_values(b"a=1=2,b=2"), fields(&[("a", "1"), ("b", "2")]));
}

#[test]
fn fields_are_updated() {
    let new_values = fields(&[("b", "9"), ("c", "7")]);
    assert_eq!(update_values(b"a=1,b=2", &new_values), b"a=1,b=9,c=7".to_vec());
    assert_eq!(update_values(b"a=1,b=2", &Vec::new()), b"a=1,b=2".to_vec());
}

#[test]
fn batches_hold_everything() {
    assert_eq!(batch_sizes(250, 100), vec![100, 100, 50]);
    assert_eq!(batch_sizes(200, 100), vec![100, 100]);
    assert_eq!(batch_sizes(3, 100), vec![3]);
    assert_eq!(batch_sizes(0, 100), Vec::<usize>::new());
}

#[test]
fn aborted_attempts_are_repeated() {
    let done: Result<usize, Error> = Ok(1);
    assert_eq!(after_attempt(&done), Attempt::Commit);
    let aborted: Result<usize, Error> = Err(Error::TransactionAborted("conflict".to_owned()));
    assert_eq!(after_attempt(&aborted), Attempt::Retry);
    let failed: Result<usize, Error> = Err(Error::Io("disk".to_owned()));
    assert_eq!(after_attempt(&failed), Attempt::Fail);
}

#[test]
fn operations_are_measured_together() {
    assert_eq!(Operation::Read.measurement(), 0);
    assert_eq!(Operation::Scan.measurement(), 0);
    assert_eq!(Operation::Update.measurement(), 1);
    assert_eq!(Operation::ReadModifyWrite.measurement(), 1);
    assert_eq!(Operation::Insert.measurement(), 2);
}
