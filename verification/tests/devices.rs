use vocal_sieve::devices::{
    find_input_device, find_output_device, list_input_devices, list_output_devices, Device, Found,
};

fn device(name: &str) -> Device {
    Device { name: Some(name.to_string()) }
}

fn nameless() -> Device {
    Device { name: None }
}

#[test]
fn default_device_comes_first_and_once() {
    let others = vec![device("Line"), device("Mic"), device("Line")];
    assert_eq!(list_input_devices(&Some(device("Mic")), &others), vec!["Mic", "Line"]);
    assert_eq!(list_output_devices(&Some(device("Mic")), &others), vec!["Mic", "Line"]);
}

#[test]
fn without_default_device_the_order_is_kept() {
    let others = vec![device("B"), device("A"), device("B"), device("C")];
    assert_eq!(list_output_devices(&None, &others), vec!["B", "A", "C"]);
    assert_eq!(list_input_devices(&None, &vec![]), Vec::<String>::new());
}

#[test]
fn nameless_devices_share_one_empty_name() {
    let others = vec![nameless(), device("A"), nameless()];
    assert_eq!(list_input_devices(&None, &others), vec!["", "A"]);
    assert_eq!(list_input_devices(&Some(nameless()), &others), vec!["", "A"]);
}

#[test]
fn devices_are_found_by_name() {
    let others = vec![device("Line"), device("Mic"), device("Mic")];
    assert_eq!(find_input_device("Mic", &Some(device("Mic")), &others), Some(Found::Default));
    assert_eq!(find_input_device("Mic", &Some(device("X")), &others), Some(Found::Listed(1)));
    assert_eq!(find_output_device("Line", &None, &others), Some(Found::Listed(0)));
    assert_eq!(find_output_device("mic", &None, &others), None);
}

#[test]
fn nameless_devices_are_not_found() {
    assert_eq!(find_input_device("", &Some(nameless()), &vec![nameless()]), None);
}
