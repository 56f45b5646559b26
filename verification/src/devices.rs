//! The audio devices as the sound system reports them.

use vstd::prelude::*;

use crate::text::{list_contains, same_text};
#[allow(unused_imports)]
use crate::text::texts;

verus! {

/// A device: its name, where it tells it.
pub struct Device {
    pub name: Option<String>,
}

/// Which of the devices reported was found.
#[derive(Clone, Copy, Debug, PartialEq, Eq, Structural)]
pub enum Found {
    /// The default device.
    Default,
    /// The device at this place in the list.
    Listed(usize),
}

/// The name under which a device is listed: nothing where it tells none.
pub open spec fn listed_name(device: Device) -> Seq<char> {
    match device.name {
        Some(name) => name@,
        None => Seq::empty(),
    }
}

/// Whether a device tells this name.
pub open spec fn is_named(device: Device, name: Seq<char>) -> bool {
    match device.name {
        Some(own) => own@ == name,
        None => false,
    }
}

/// A list of names with one more at its end, unless it is there already.
pub open spec fn with_name(names: Seq<Seq<char>>, name: Seq<char>) -> Seq<Seq<char>> {
    if names.contains(name) {
        names
    } else {
        names.push(name)
    }
}

/// The names of the devices: that of the default device first, then those of the
/// others in their order, each once.
pub open spec fn device_names(default: Option<Device>, devices: Seq<Device>) -> Seq<Seq<char>>
    decreases devices.len(),
{
    if devices.len() == 0 {
        match default {
            Some(device) => seq![listed_name(device)],
            None => Seq::empty(),
        }
    } else {
        with_name(device_names(default, devices.drop_last()), listed_name(devices.last()))
    }
}

/// Which device is found under a name: the default device where it has the
/// name, else the first in the list that has it.
pub open spec fn found_device(
    name: Seq<char>,
    default: Option<Device>,
    devices: Seq<Device>,
    r: Option<Found>,
) -> bool {
    if default is Some && is_named(default->0, name) {
        r == Some(Found::Default)
    } else {
        match r {
            Some(Found::Default) => false,
            Some(Found::Listed(i)) => {
                &&& i < devices.len()
                &&& is_named(devices[i as int], name)
                &&& forall|j: int| 0 <= j < i ==> !is_named(#[trigger] devices[j], name)
            },
            None => forall|j: int| 0 <= j < devices.len() ==> !is_named(#[trigger] devices[j], name),
        }
    }
}

/// The name under which a device is listed.
fn name_of(device: &Device) -> (r: String)
    ensures
        r@ == listed_name(*device),
{
    match &device.name {
        Some(name) => name.clone(),
        None => String::new(),
    }
}

/// Whether a device tells this name.
fn has_name(device: &Device, name: &str) -> (r: bool)
    ensures
        r == is_named(*device, name@),
{
    match &device.name {
        Some(own) => same_text(own.as_str(), name),
        None => false,
    }
}

/// The names of the devices, that of the default device first.
fn list_devices(default: &Option<Device>, devices: &Vec<Device>) -> (r: Vec<String>)
    ensures
        texts(r@) == device_names(*default, devices@),
{
    let mut names: Vec<String> = Vec::new();
    match default {
        Some(device) => {
            names.push(name_of(device));
        },
        None => {},
    }
    assert(devices@.take(0) =~= Seq::empty());
    assert(texts(names@) =~= device_names(*default, devices@.take(0)));
    let mut i: usize = 0;
    while i < devices.len()
        invariant
            i <= devices@.len(),
            texts(names@) == device_names(*default, devices@.take(i as int)),
        decreases devices@.len() - i,
    {
        assert(devices@.take(i + 1).drop_last() =~= devices@.take(i as int));
        let name = name_of(&devices[i]);
        let ghost before = texts(names@);
        if !list_contains(&names, &name) {
            names.push(name);
            assert(texts(names@) =~= before.push(name@));
        }
        i += 1;
    }
    assert(devices@.take(i as int) =~= devices@);
    names
}

/// Which device is found under a name.
fn find_device(name: &str, default: &Option<Device>, devices: &Vec<Device>) -> (r: Option<Found>)
    ensures
        found_device(name@, *default, devices@, r),
{
    match default {
        Some(device) => {
            if has_name(device, name) {
                return Some(Found::Default);
            }
        },
        None => {},
    }
    let mut i: usize = 0;
    while i < devices.len()
        invariant
            i <= devices@.len(),
            !(*default is Some && is_named(default->0, name@)),
            forall|j: int| 0 <= j < i ==> !is_named(#[trigger] devices@[j], name@),
        decreases devices@.len() - i,
    {
        if has_name(&devices[i], name) {
            return Some(Found::Listed(i));
        }
        i += 1;
    }
    None
}

/// The names of the input devices, that of the default device first.
pub fn list_input_devices(default: &Option<Device>, devices: &Vec<Device>) -> (r: Vec<String>)
    ensures
        texts(r@) == device_names(*default, devices@),
{
    list_devices(default, devices)
}

/// The names of the output devices, that of the default device first.
pub fn list_output_devices(default: &Option<Device>, devices: &Vec<Device>) -> (r: Vec<String>)
    ensures
        texts(r@) == device_names(*default, devices@),
{
    list_devices(default, devices)
}

/// Which input device is found under a name.
pub fn find_input_device(
    name: &str,
    default: &Option<Device>,
    devices: &Vec<Device>,
) -> (r: Option<Found>)
    ensures
        found_device(name@, *default, devices@, r),
{
    find_device(name, default, devices)
}

/// Which output device is found under a name.
pub fn find_output_device(
    name: &str,
    default: &Option<Device>,
    devices: &Vec<Device>,
) -> (r: Option<Found>)
    ensures
        found_device(name@, *default, devices@, r),
{
    find_device(name, default, devices)
}

/// No name is listed twice, every device is listed, nothing else is, and the
/// default device comes first.
pub proof fn law_every_device_is_listed_once(default: Option<Device>, devices: Seq<Device>)
    ensures
        device_names(default, devices).no_duplicates(),
        forall|i: int|
            0 <= i < devices.len() ==> device_names(default, devices).contains(
                listed_name(#[trigger] devices[i]),
            ),
        forall|n: int|
            0 <= n < device_names(default, devices).len() ==> {
                let name = #[trigger] device_names(default, devices)[n];
                ||| default is Some && name == listed_name(default->0)
                ||| exists|i: int| 0 <= i < devices.len() && name == listed_name(
                    #[trigger] devices[i],
                )
            },
        default is Some ==> device_names(default, devices).len() > 0 && device_names(
            default,
            devices,
        )[0] == listed_name(default->0),
    decreases devices.len(),
{
    let names = device_names(default, devices);
    if devices.len() > 0 {
        let fewer = devices.drop_last();
        let before = device_names(default, fewer);
        let last = listed_name(devices.last());
        law_every_device_is_listed_once(default, fewer);
        assert forall|i: int| 0 <= i < devices.len() implies names.contains(
            listed_name(#[trigger] devices[i]),
        ) by {
            if i < fewer.len() {
                assert(fewer[i] == devices[i]);
                let n = choose|n: int| 0 <= n < before.len() && before[n] == listed_name(devices[i]);
                assert(names[n] == before[n]);
            } else if !before.contains(last) {
                assert(names[before.len() as int] == last);
            }
        }
        assert forall|n: int| 0 <= n < names.len() implies {
            let name = #[trigger] names[n];
            ||| default is Some && name == listed_name(default->0)
            ||| exists|i: int| 0 <= i < devices.len() && name == listed_name(#[trigger] devices[i])
        } by {
            if n < before.len() {
                assert(names[n] == before[n]);
                if !(default is Some && names[n] == listed_name(default->0)) {
                    let i = choose|i: int|
                        0 <= i < fewer.len() && before[n] == listed_name(#[trigger] fewer[i]);
                    assert(devices[i] == fewer[i]);
                }
            } else {
                assert(devices[devices.len() - 1] == devices.last());
            }
        }
    }
}

/// A name that is listed and told by a device is found.
pub proof fn law_named_devices_are_found(
    name: Seq<char>,
    default: Option<Device>,
    devices: Seq<Device>,
    r: Option<Found>,
)
    requires
        found_device(name, default, devices, r),
    ensures
        r is Some <==> (default is Some && is_named(default->0, name)) || exists|i: int|
            0 <= i < devices.len() && is_named(#[trigger] devices[i], name),
{
}

/// Where a device is found, it is one that tells the name: the default device where that one
/// does, and else the first in the list that does.
pub proof fn law_found_devices_have_the_name(
    name: Seq<char>,
    default: Option<Device>,
    devices: Seq<Device>,
    r: Option<Found>,
    j: int,
)
    requires
        found_device(name, default, devices, r),
        0 <= j < devices.len(),
        is_named(devices[j], name),
    ensures
        default is Some && is_named(default->0, name) ==> r == Some(Found::Default),
        !(default is Some && is_named(default->0, name)) ==> match r {
            Some(Found::Listed(i)) => i <= j && devices[i as int].name is Some
                && devices[i as int].name->0@ == name,
            _ => false,
        },
{
}

/// Listing one more device leaves what was listed in its order and adds the device at the
/// end, if its name was not there.
pub proof fn law_devices_are_listed_in_order(
    default: Option<Device>,
    devices: Seq<Device>,
    device: Device,
)
    ensures
        ({
            let before = device_names(default, devices);
            let after = device_names(default, devices.push(device));
            let name = listed_name(device);
            &&& before.contains(name) ==> after == before
            &&& !before.contains(name) ==> after == before.push(name)
            &&& device_names(default, Seq::empty()).len() == (if default is Some {
                1
            } else {
                0int
            })
        }),
{
    assert(devices.push(device).drop_last() =~= devices);
}

} // verus!
