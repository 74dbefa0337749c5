use north_pole::shelf::{elf_count, Elf};

fn counts(elf: usize, elf_on_a_shelf: usize, shelf_with_no_elf_on_it: usize) -> Elf {
    Elf { elf, elf_on_a_shelf, shelf_with_no_elf_on_it }
}

#[test]
fn elves_are_counted() {
    assert_eq!(
        elf_count("The mischievous elf peeked out from behind the toy workshop, and another elf joined in the festive dance. Look, there is also an elf on that shelf!"),
        counts(4, 0, 1)
    );
}

#[test]
fn shelves_are_told_apart_by_what_stands_before_them() {
    assert_eq!(
        elf_count("there is an elf on a shelf on an elf. there is also another shelf in Belfast."),
        counts(5, 1, 1)
    );
    assert_eq!(elf_count("elf on a shelf"), counts(2, 1, 0));
    assert_eq!(elf_count("elf on a  shelf"), counts(2, 0, 1));
    assert_eq!(elf_count("shelf"), counts(1, 0, 1));
    assert_eq!(elf_count("n a shelf"), counts(1, 0, 1));
    assert_eq!(elf_count("elf on a shelfelf on a shelf"), counts(4, 2, 0));
}

#[test]
fn short_and_foreign_texts_are_counted_too() {
    assert_eq!(elf_count(""), counts(0, 0, 0));
    assert_eq!(elf_count("elf"), counts(1, 0, 0));
    assert_eq!(elf_count("el"), counts(0, 0, 0));
    assert_eq!(elf_count("shel"), counts(0, 0, 0));
    assert_eq!(elf_count("élf, elf, Elf, ELF"), counts(1, 0, 0));
    assert_eq!(elf_count("🎁elf on a shelf🎁"), counts(2, 1, 0));
    assert_eq!(elf_count("elfelfelf"), counts(3, 0, 0));
}
