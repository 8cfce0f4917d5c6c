use derivefmt::modify_source;

fn run(input: &str) -> String {
    let mut source = input.to_string();
    modify_source(&mut source);
    source
}

#[test]
fn test_derive_missing_comma() {
    let input = "\n#[derive(Debug, Clone, Default Hash)]\nstruct S;\n";
    let expected = "\n#[derive(Clone, Debug, Default Hash)]\nstruct S;\n";
    assert_eq!(run(input), expected);
}

#[test]
fn test_derive_double_comma() {
    let input = "\n#[derive(Debug, Clone, Default,, Apples, Hash)]\nstruct T;\n";
    let expected = "\n#[derive(Apples, Clone, Debug,, Default, Hash)]\nstruct T;\n";
    assert_eq!(run(input), expected);
}

#[test]
fn test_derive_ordering() {
    let input = "\n#[derive(Eq, Ord, PartialOrd, Copy, Clone, Debug, PartialEq, Hash)]\nstruct Wrapped<T>(T);\n";
    let expected =
        "\n#[derive(Clone, Copy, Debug, Eq, Hash, Ord, PartialEq, PartialOrd)]\nstruct Wrapped<T>(T);\n";
    assert_eq!(run(input), expected);
}

#[test]
fn test_derive_ordering_qualified() {
    let input =
        "\n#[derive ( PartialEq, Copy, PartialOrd, std :: fmt :: Debug, Hash, Eq, Ord )]\nstruct SillyBugger;\n";
    let expected =
        "\n#[derive ( Copy, std :: fmt :: Debug, Eq, Hash, Ord, PartialEq, PartialOrd )]\nstruct SillyBugger;\n";
    assert_eq!(run(input), expected);
}

#[test]
fn test_multiline_derives() {
    let input = "\n#[derive(\n    core::cmp::PartialEq,\n    core::clone::Clone,\n    core::marker::Copy,\n    core::fmt::Debug,\n    core::hash::Hash,\n    core::default::Default,\n    core::cmp::Eq,\n    core::cmp::Ord,\n    core::cmp::PartialOrd,\n)]\nstruct Core;\n\n#[derive(\n    std::fmt::Debug,\n    std::clone::Clone,\n    std::marker::Copy,\n    std::cmp::PartialEq,\n    std::default::Default,\n    std::cmp::Eq,\n    std::hash::Hash,\n    std::cmp::Ord,\n    std::cmp::PartialOrd,\n)]\nstruct Std;\n\n";
    let expected = "\n#[derive(\n    core::clone::Clone,\n    core::marker::Copy,\n    core::fmt::Debug,\n    core::default::Default,\n    core::cmp::Eq,\n    core::hash::Hash,\n    core::cmp::Ord,\n    core::cmp::PartialEq,\n    core::cmp::PartialOrd,\n)]\nstruct Core;\n\n#[derive(\n    std::clone::Clone,\n    std::marker::Copy,\n    std::fmt::Debug,\n    std::default::Default,\n    std::cmp::Eq,\n    std::hash::Hash,\n    std::cmp::Ord,\n    std::cmp::PartialEq,\n    std::cmp::PartialOrd,\n)]\nstruct Std;\n\n";
    assert_eq!(run(input), expected);
}

#[test]
fn test_derive_comments() {
    let input = "\n#[derive(\n/* ---------- Some really important comment that just had to go inside the derive --------- */\nDebug,\nClone, // And what about this?\nEq, PartialEq,\n)]\nstruct Foo {\n    a: i32,\n    b: T,\n}\n";
    let expected = "\n#[derive(\n/* ---------- Some really important comment that just had to go inside the derive --------- */\nClone,\nDebug, // And what about this?\nEq, PartialEq,\n)]\nstruct Foo {\n    a: i32,\n    b: T,\n}\n";
    assert_eq!(run(input), expected);
}

#[test]
fn mod_test_derive_ordering() {
    let input = "\n#[derive(Eq, Ord, PartialOrd, Copy, Clone, Debug, PartialEq, Hash)]\nstruct Wrapped<T>(T);\n";
    let expected =
        "\n#[derive(Clone, Copy, Debug, Eq, Hash, Ord, PartialEq, PartialOrd)]\nstruct Wrapped<T>(T);\n";
    assert_eq!(run(input), expected);
}

#[test]
fn mod_test_derive_ordering_qualified() {
    let input =
        "\n#[derive ( PartialEq, Copy, PartialOrd, std :: fmt :: Debug, Hash, Eq, Ord )]\nstruct SillyBugger;\n";
    let expected =
        "\n#[derive ( Copy, std :: fmt :: Debug, Eq, Hash, Ord, PartialEq, PartialOrd )]\nstruct SillyBugger;\n";
    assert_eq!(run(input), expected);
}

#[test]
fn mod_test_multiline_derives() {
    let input = "\n#[derive(\n    core::cmp::PartialEq,\n    core::clone::Clone,\n    core::marker::Copy,\n    core::fmt::Debug,\n    core::hash::Hash,\n    core::default::Default,\n    core::cmp::Eq,\n    core::cmp::Ord,\n    core::cmp::PartialOrd,\n)]\nstruct Core;\n\n#[derive(\n    std::fmt::Debug,\n    std::clone::Clone,\n    std::marker::Copy,\n    std::cmp::PartialEq,\n    std::default::Default,\n    std::cmp::Eq,\n    std::hash::Hash,\n    std::cmp::Ord,\n    std::cmp::PartialOrd,\n)]\nstruct Std;\n\n";
    let expected = "\n#[derive(\n    core::clone::Clone,\n    core::marker::Copy,\n    core::fmt::Debug,\n    core::default::Default,\n    core::cmp::Eq,\n    core::hash::Hash,\n    core::cmp::Ord,\n    core::cmp::PartialEq,\n    core::cmp::PartialOrd,\n)]\nstruct Core;\n\n#[derive(\n    std::clone::Clone,\n    std::marker::Copy,\n    std::fmt::Debug,\n    std::default::Default,\n    std::cmp::Eq,\n    std::hash::Hash,\n    std::cmp::Ord,\n    std::cmp::PartialEq,\n    std::cmp::PartialOrd,\n)]\nstruct Std;\n\n";
    assert_eq!(run(input), expected);
}

#[test]
fn already_sorted_round_trips_unchanged() {
    let input = "#[derive(Clone, Copy, Debug)]\nstruct A;\n";
    assert_eq!(run(input), input);
}

#[test]
fn running_twice_equals_running_once() {
    let inputs = [
        "\n#[derive(Eq, Ord, PartialOrd, Copy, Clone, Debug, PartialEq, Hash)]\nstruct W;\n",
        "\n#[derive(Debug, Clone, Default Hash)]\nstruct S;\n",
        "\n#[derive(Debug, Clone, Default,, Apples, Hash)]\nstruct T;\n",
        "\n#[derive(\n/* keep me */\nDebug,\nClone, // tail\nEq, PartialEq,\n)]\nstruct F;\n",
    ];
    for input in inputs {
        let once = run(input);
        let twice = run(&once);
        assert_eq!(twice, once);
    }
}

#[test]
fn empty_derive_is_left_alone() {
    let input = "#[derive()]\nstruct A;\n";
    assert_eq!(run(input), input);
}

#[test]
fn nested_tree_skips_the_attribute() {
    let input = "#[derive(Debug, serde(rename), Clone)]\nstruct A;\n";
    assert_eq!(run(input), input);
}

#[test]
fn other_attributes_are_untouched() {
    let input = "#[allow(unused, dead_code)]\nstruct A;\n";
    assert_eq!(run(input), input);
}

#[test]
fn file_without_derives_is_unchanged() {
    let input = "fn main() {\n    println!(\"hi\");\n}\n";
    assert_eq!(run(input), input);
}

#[test]
fn whitespace_around_commas_is_kept() {
    let input = "#[derive(B , A)]\nstruct A;\n";
    let expected = "#[derive(A , B)]\nstruct A;\n";
    assert_eq!(run(input), expected);
}

#[test]
fn equal_keys_keep_their_order() {
    let input = "#[derive(x::A, y::A, B)]\nstruct S;\n";
    let expected = "#[derive(x::A, y::A, B)]\nstruct S;\n";
    assert_eq!(run(input), expected);
}
