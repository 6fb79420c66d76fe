use p1689::testing::corpus::{dep_text, item, src_file};

#[test]
fn fixtures_name_the_project() {
    assert_eq!("gnu-make", dep_text::src_proj());
    assert_eq!("gnu-make", src_file::src_proj());
}

#[test]
fn fixtures_expected_outputs_are_sorted_and_distinct() {
    let outputs = dep_text::expected_outputs();
    assert_eq!(outputs, ["bar.o", "foo.o", "foo/part1.o", "foo/part2.o", "main.o"]);
    assert!(outputs.windows(2).all(|w| w[0] < w[1]));
    assert_eq!(outputs, src_file::expected_outputs());
}

#[test]
fn fixtures_items_are_their_files() {
    assert_eq!("bar.ddi", item::bar().0);
    assert_eq!("foo-part1.ddi", item::foo_part1().0);
    assert_eq!("foo-part2.ddi", item::foo_part2().0);
    assert_eq!("foo.ddi", item::foo().0);
    assert_eq!("main.ddi", item::main().0);
    assert_eq!("foo.ddi", item::foo_cycle().0);
    assert_eq!("bar.ddi", item::bar_cycle().0);
    assert!(item::main().1.contains("\"primary-output\": \"main.o\""));
}
