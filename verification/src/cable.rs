//! Virtual audio cables: devices that hand their sound to another program.

use vstd::prelude::*;

use crate::text::{contains_text, to_uppercase};
#[allow(unused_imports)]
use crate::text::{
    alike_in_ascii, ascii_capital, lemma_ascii_case_is_lost, lemma_plain_uppercase,
    lemma_uppercase_occurs, occurs, plain, spelled, texts, uppercase,
};

verus! {

/// The number of words that give a virtual cable away.
pub const KEYWORDS: usize = 7;

/// The words that give a virtual cable away.
pub open spec fn keywords() -> Seq<Seq<char>> {
    seq![
        "CABLE"@,
        "VB-Audio"@,
        "Virtual"@,
        "虚拟"@,
        "VAC"@,
        "Voicemeeter"@,
        "VBAN"@,
    ]
}

/// Whether one of some words stands in a name.
pub open spec fn has_word(name: Seq<char>, words: Seq<Seq<char>>) -> bool {
    exists|i: int| 0 <= i < words.len() && occurs(#[trigger] words[i], name)
}

/// Whether a name is that of a virtual cable: one of the keywords stands in it,
/// the case of letters aside.
pub open spec fn cable_name(name: Seq<char>) -> bool {
    has_word(uppercase(name), keywords().map_values(|w: Seq<char>| uppercase(w)))
}

/// A keyword.
fn keyword(i: usize) -> (r: &'static str)
    requires
        i < KEYWORDS,
    ensures
        r@ == keywords()[i as int],
{
    if i == 0 {
        "CABLE"
    } else if i == 1 {
        "VB-Audio"
    } else if i == 2 {
        "Virtual"
    } else if i == 3 {
        "虚拟"
    } else if i == 4 {
        "VAC"
    } else if i == 5 {
        "Voicemeeter"
    } else {
        "VBAN"
    }
}

/// Whether one of some words stands in a name.
pub fn contains_any(name: &Vec<char>, words: &Vec<Vec<char>>) -> (r: bool)
    ensures
        r == has_word(name@, spelled(words@)),
{
    let mut i: usize = 0;
    while i < words.len()
        invariant
            i <= words@.len(),
            forall|j: int| 0 <= j < i ==> !occurs(#[trigger] spelled(words@)[j], name@),
        decreases words@.len() - i,
    {
        let found = contains_text(name, &words[i]);
        assert(spelled(words@)[i as int] == words@[i as int]@);
        if found {
            return true;
        }
        i += 1;
    }
    false
}

/// Whether a device name is that of a virtual cable.
pub fn is_virtual_cable_name(name: &str) -> (r: bool)
    ensures
        r == cable_name(name@),
{
    let upper = to_uppercase(name);
    let ghost shouted = keywords().map_values(|w: Seq<char>| uppercase(w));
    let mut words: Vec<Vec<char>> = Vec::new();
    let mut i: usize = 0;
    while i < KEYWORDS
        invariant
            i <= KEYWORDS,
            shouted == keywords().map_values(|w: Seq<char>| uppercase(w)),
            spelled(words@) =~= shouted.take(i as int),
        decreases KEYWORDS - i,
    {
        let word = to_uppercase(keyword(i));
        let ghost before = spelled(words@);
        words.push(word);
        assert(spelled(words@) =~= before.push(word@));
        i += 1;
    }
    assert(spelled(words@) =~= shouted);
    contains_any(&upper, &words)
}

/// The first device in a list whose name is that of a virtual cable.
pub open spec fn is_first_cable(devices: Seq<Seq<char>>, i: int) -> bool {
    &&& 0 <= i < devices.len()
    &&& cable_name(devices[i])
    &&& forall|j: int| 0 <= j < i ==> !cable_name(#[trigger] devices[j])
}

/// Whether a list holds the name of a virtual cable.
pub open spec fn any_cable(devices: Seq<Seq<char>>) -> bool {
    exists|i: int| 0 <= i < devices.len() && cable_name(#[trigger] devices[i])
}

/// The place of the first virtual cable in a list of device names.
pub fn find_virtual_cable_output_index(devices: &[String]) -> (r: Option<usize>)
    ensures
        match r {
            Some(i) => is_first_cable(texts(devices@), i as int),
            None => !any_cable(texts(devices@)),
        },
{
    let ghost names = texts(devices@);
    let mut i: usize = 0;
    while i < devices.len()
        invariant
            i <= devices@.len(),
            names == texts(devices@),
            forall|j: int| 0 <= j < i ==> !cable_name(#[trigger] names[j]),
        decreases devices@.len() - i,
    {
        assert(names[i as int] == devices@[i as int]@);
        if is_virtual_cable_name(devices[i].as_str()) {
            return Some(i);
        }
        i += 1;
    }
    None
}

/// The name of the first virtual cable among the output devices.
pub fn detect_virtual_cable_output(output_devices: &[String]) -> (r: Option<String>)
    ensures
        match r {
            Some(name) => exists|i: int|
                is_first_cable(texts(output_devices@), i) && name@ == #[trigger] texts(
                    output_devices@,
                )[i],
            None => !any_cable(texts(output_devices@)),
        },
{
    match find_virtual_cable_output_index(output_devices) {
        Some(i) => {
            let name = output_devices[i].clone();
            assert(texts(output_devices@)[i as int] == name@);
            Some(name)
        },
        None => None,
    }
}

/// The name of the first virtual cable among the input devices.
pub fn detect_virtual_cable_input(input_devices: &[String]) -> (r: Option<String>)
    ensures
        match r {
            Some(name) => exists|i: int|
                is_first_cable(texts(input_devices@), i) && name@ == #[trigger] texts(
                    input_devices@,
                )[i],
            None => !any_cable(texts(input_devices@)),
        },
{
    detect_virtual_cable_output(input_devices)
}

/// Whether there is a virtual cable among the output devices.
pub fn has_virtual_cable(output_devices: &[String]) -> (r: bool)
    ensures
        r == any_cable(texts(output_devices@)),
{
    match find_virtual_cable_output_index(output_devices) {
        Some(i) => true,
        None => false,
    }
}

/// A name in which a keyword stands as it is written is that of a virtual cable.
pub proof fn law_keywords_are_recognised(name: Seq<char>, i: int)
    requires
        0 <= i < keywords().len(),
        occurs(keywords()[i], name),
    ensures
        cable_name(name),
{
    let shouted = keywords().map_values(|w: Seq<char>| uppercase(w));
    lemma_uppercase_occurs(keywords()[i], name);
    assert(shouted[i] == uppercase(keywords()[i]));
}

/// A text with its ASCII letters in upper case.
pub open spec fn in_ascii_capitals(text: Seq<char>) -> Seq<char> {
    text.map_values(|c: char| ascii_capital(c))
}

/// A name of ASCII characters and ideographs is that of a virtual cable exactly where
/// one of the keywords stands in it, the case of ASCII letters aside.
pub proof fn law_plain_names_are_decided(name: Seq<char>)
    requires
        plain(name),
    ensures
        cable_name(name) <==> has_word(
            in_ascii_capitals(name),
            keywords().map_values(|w: Seq<char>| in_ascii_capitals(w)),
        ),
        cable_name(name) <==> ({
            let capitals = in_ascii_capitals(name);
            ||| occurs(in_ascii_capitals("CABLE"@), capitals)
            ||| occurs(in_ascii_capitals("VB-Audio"@), capitals)
            ||| occurs(in_ascii_capitals("Virtual"@), capitals)
            ||| occurs(in_ascii_capitals("虚拟"@), capitals)
            ||| occurs(in_ascii_capitals("VAC"@), capitals)
            ||| occurs(in_ascii_capitals("Voicemeeter"@), capitals)
            ||| occurs(in_ascii_capitals("VBAN"@), capitals)
        }),
{
    reveal_strlit("CABLE");
    reveal_strlit("VB-Audio");
    reveal_strlit("Virtual");
    reveal_strlit("虚拟");
    reveal_strlit("VAC");
    reveal_strlit("Voicemeeter");
    reveal_strlit("VBAN");
    lemma_plain_uppercase(name);
    let words = keywords();
    assert forall|i: int| 0 <= i < words.len() implies uppercase(#[trigger] words[i])
        == in_ascii_capitals(words[i]) by {
        assert(plain(words[i]));
        lemma_plain_uppercase(words[i]);
    }
    let shouted = words.map_values(|w: Seq<char>| in_ascii_capitals(w));
    assert(words.map_values(|w: Seq<char>| uppercase(w)) =~= shouted);
    let capitals = in_ascii_capitals(name);
    assert(shouted[0] == in_ascii_capitals("CABLE"@));
    assert(shouted[1] == in_ascii_capitals("VB-Audio"@));
    assert(shouted[2] == in_ascii_capitals("Virtual"@));
    assert(shouted[3] == in_ascii_capitals("虚拟"@));
    assert(shouted[4] == in_ascii_capitals("VAC"@));
    assert(shouted[5] == in_ascii_capitals("Voicemeeter"@));
    assert(shouted[6] == in_ascii_capitals("VBAN"@));
}

/// The case of letters does not matter: names that read the same in upper case
/// are both names of virtual cables or both not.
pub proof fn law_case_does_not_matter(a: Seq<char>, b: Seq<char>)
    requires
        uppercase(a) == uppercase(b),
    ensures
        cable_name(a) == cable_name(b),
{
}

/// The case of ASCII letters never matters: names that differ in nothing else are
/// both names of virtual cables or both not.
pub proof fn law_ascii_case_does_not_matter(a: Seq<char>, b: Seq<char>)
    requires
        alike_in_ascii(a, b),
    ensures
        cable_name(a) == cable_name(b),
{
    lemma_ascii_case_is_lost(a, b);
}

/// A list has a first virtual cable exactly where it has one, and there is only
/// one first.
pub proof fn law_first_cable_is_unique(devices: Seq<Seq<char>>)
    ensures
        any_cable(devices) <==> exists|i: int| is_first_cable(devices, i),
        forall|i: int, j: int|
            is_first_cable(devices, i) && is_first_cable(devices, j) ==> i == j,
{
    if any_cable(devices) {
        let i = choose|i: int| 0 <= i < devices.len() && cable_name(#[trigger] devices[i]);
        lemma_first_cable_before(devices, i);
    }
}

proof fn lemma_first_cable_before(devices: Seq<Seq<char>>, i: int)
    requires
        0 <= i < devices.len(),
        cable_name(devices[i]),
    ensures
        exists|j: int| is_first_cable(devices, j),
    decreases i,
{
    if exists|j: int| 0 <= j < i && cable_name(#[trigger] devices[j]) {
        let j = choose|j: int| 0 <= j < i && cable_name(#[trigger] devices[j]);
        lemma_first_cable_before(devices, j);
    } else {
        assert(is_first_cable(devices, i));
    }
}

/// The first virtual cable in a list is a virtual cable, and no other stands before it.
pub proof fn law_first_cable_comes_first(devices: Seq<Seq<char>>, i: int, j: int)
    requires
        is_first_cable(devices, i),
        0 <= j < devices.len(),
        cable_name(devices[j]),
    ensures
        cable_name(devices[i]),
        i <= j,
{
}

} // verus!
