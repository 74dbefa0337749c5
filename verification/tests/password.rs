use north_pole::password::{
    game, game_of, judge, nice, nice_of, Reason, Task2Response, Verdict,
};

const DIGEST_A: &str = "ac4a8434c5dcdf157cd5399a37e357ce09f614ac4b755dc5703ce07c61b5b38a";
const DIGEST_7: &str = "0fc8c73cd29dcdbe8434d1389156ad597f9371effa2c5882392f2aecda439767";
const GOOD: &str = "2000.23.A j  ;) o  ;) y aba ⦄😳bf";

#[test]
fn day_15_task1() {
    let r = nice("hello there");
    assert_eq!(r, Verdict::Nice);
    assert_eq!(r.status(), 200);
    assert_eq!(r.text(), "nice");
    let r = nice("abcd");
    assert_eq!(r, Verdict::Naughty);
    assert_eq!(r.status(), 400);
    assert_eq!(r.text(), "naughty");
    // a payload without a text under `input`
    assert_eq!(nice_of(None).status(), 400);
}

#[test]
fn day_15_task2() {
    let t1 = game("password");
    assert_eq!(t1.status(), 400);
    assert_eq!(t1.response(), Task2Response { result: Verdict::Naughty, reason: t1 });
    assert_eq!(t1.text(), "more types of chars");
    let t2 = game("Password12345");
    assert_eq!(t2.status(), 400);
    assert_eq!(t2.response().result, Verdict::Naughty);
    assert_eq!(t2.text(), "math is hard");
    let t3 = game("23jPassword2000y");
    assert_eq!(t3.status(), 451);
    assert_eq!(t3.response().result, Verdict::Naughty);
    assert_eq!(t3.text(), "illegal: no sandwich");
}

#[test]
fn nice_needs_three_vowels_before_the_last_character() {
    assert_eq!(nice("aaxei"), Verdict::Nice);
    assert_eq!(nice("xxaei"), Verdict::Naughty);
    assert_eq!(nice("xxaeia"), Verdict::Nice);
    assert_eq!(nice("aaa"), Verdict::Naughty);
    assert_eq!(nice("aaaa"), Verdict::Nice);
    assert_eq!(nice("yyyy"), Verdict::Nice);
}

#[test]
fn nice_needs_a_letter_twice_in_a_row() {
    assert_eq!(nice("aeiou"), Verdict::Naughty);
    assert_eq!(nice("aeioo."), Verdict::Nice);
    assert_eq!(nice("aei11u"), Verdict::Naughty);
    assert_eq!(nice("aei  u"), Verdict::Naughty);
    assert_eq!(nice("AAaeiu"), Verdict::Nice);
}

#[test]
fn nice_refuses_forbidden_pairs() {
    assert_eq!(nice("aaeeiab"), Verdict::Naughty);
    assert_eq!(nice("aaeeicd"), Verdict::Naughty);
    assert_eq!(nice("aaeeipq"), Verdict::Naughty);
    assert_eq!(nice("aaeeixy"), Verdict::Naughty);
    assert_eq!(nice("aaeeiba"), Verdict::Nice);
    assert_eq!(nice("a"), Verdict::Naughty);
    assert_eq!(nice(""), Verdict::Naughty);
}

#[test]
fn answers_pair_reason_and_result() {
    assert_eq!(
        Task2Response::nice(Reason::Success),
        Task2Response { result: Verdict::Nice, reason: Reason::Success }
    );
    assert_eq!(
        Task2Response::naughty(Reason::WrongSum),
        Task2Response { result: Verdict::Naughty, reason: Reason::WrongSum }
    );
    assert_eq!(Reason::Success.response(), Task2Response::nice(Reason::Success));
    assert_eq!(Reason::BadRequest.response(), Task2Response::naughty(Reason::BadRequest));
}

#[test]
fn each_reason_has_its_status_and_words() {
    let table = [
        (Reason::BadRequest, 400, "BadRequest"),
        (Reason::TooShort, 400, "8 chars"),
        (Reason::FewKinds, 400, "more types of chars"),
        (Reason::FewDigits, 400, "55555"),
        (Reason::WrongSum, 400, "math is hard"),
        (Reason::NotJoyful, 406, "not joyful enough"),
        (Reason::NoSandwich, 451, "illegal: no sandwich"),
        (Reason::OutOfRange, 416, "outranged"),
        (Reason::NoEmoji, 426, "\u{f0}\u{178}\u{2dc}\u{b3}"),
        (Reason::WrongDigest, 418, "not a coffee brewer"),
        (Reason::Success, 200, "that's a nice password"),
    ];
    for (reason, status, words) in table {
        assert_eq!(reason.status(), status);
        assert_eq!(reason.text(), words);
    }
}

#[test]
fn judge_gives_each_reason_in_the_order_of_the_rules() {
    assert_eq!(judge("Aa1", true, DIGEST_A), Reason::TooShort);
    assert_eq!(judge("ééé1", true, DIGEST_A), Reason::TooShort);
    assert_eq!(judge("éééé", true, DIGEST_A), Reason::FewKinds);
    assert_eq!(judge("password", true, DIGEST_A), Reason::FewKinds);
    assert_eq!(judge("PASSWORD1", true, DIGEST_A), Reason::FewKinds);
    assert_eq!(judge("Passwordx", true, DIGEST_A), Reason::FewKinds);
    assert_eq!(judge("Password1234", true, DIGEST_A), Reason::FewDigits);
    assert_eq!(judge("Password12345", true, DIGEST_A), Reason::WrongSum);
    assert_eq!(judge("Pass2000word24", true, DIGEST_A), Reason::WrongSum);
    assert_eq!(judge("Pass 2023 w 00000", true, DIGEST_A), Reason::NoSandwich);
    assert_eq!(judge("Pass 99999999999999999999999 w", true, DIGEST_A), Reason::WrongSum);
    assert_eq!(judge("2000.23.A y o j", true, DIGEST_A), Reason::NotJoyful);
    assert_eq!(judge("2000.23.A j j", true, DIGEST_A), Reason::NotJoyful);
    assert_eq!(judge("2000.23.A o", true, DIGEST_A), Reason::NotJoyful);
    assert_eq!(judge("2000.23.A j y", true, DIGEST_A), Reason::NotJoyful);
    assert_eq!(judge("2000.23.A j o y", true, DIGEST_A), Reason::NoSandwich);
    assert_eq!(judge("2000.23.A j o aab", true, DIGEST_A), Reason::NoSandwich);
    assert_eq!(judge("2000.23.A j o 1a1", true, DIGEST_A), Reason::WrongSum);
    assert_eq!(judge("2000.23.A aaa", true, DIGEST_A), Reason::NoSandwich);
    assert_eq!(judge("2000.23.A aba", true, DIGEST_A), Reason::OutOfRange);
    assert_eq!(judge("2000.23.A aba \u{297f}\u{2c00}", true, DIGEST_A), Reason::OutOfRange);
    assert_eq!(judge("2000.23.A aba \u{2980}", false, DIGEST_A), Reason::NoEmoji);
    assert_eq!(judge("2000.23.A aba \u{2bff}", true, DIGEST_7), Reason::WrongDigest);
    assert_eq!(judge("2000.23.A aba \u{2bff}", true, ""), Reason::WrongDigest);
    assert_eq!(judge("2000.23.A aba \u{2bff}", true, DIGEST_A), Reason::Success);
}

#[test]
fn game_looks_up_emoji_and_digest() {
    assert_eq!(game(GOOD), Reason::Success);
    assert_eq!(game(GOOD).response(), Task2Response::nice(Reason::Success));
    // ends in a, but its digest does not
    assert_eq!(game("2000.23.A j  ;) o  ;) y aba ⦄😳ba"), Reason::WrongDigest);
    assert_eq!(game("2000.23.A j  ;) o  ;) y aba ⦄bf"), Reason::NoEmoji);
    assert_eq!(game("2000.23.A j  ;) o  ;) y aba ⦄:)bf"), Reason::NoEmoji);
    assert_eq!(game("2000.23.A j  ;) o  ;) y aba 😳bf"), Reason::OutOfRange);
}

#[test]
fn game_agrees_with_judge_on_what_it_looked_up() {
    assert_eq!(game(GOOD), judge(GOOD, true, DIGEST_A));
    let other = "2000.23.A j  ;) o  ;) y aba ⦄😳ba";
    assert_eq!(game(other), judge(other, true, DIGEST_7));
}

#[test]
fn without_a_text_the_answer_is_fixed() {
    assert_eq!(game_of(None), Reason::BadRequest);
    assert_eq!(game_of(None).status(), 400);
    assert_eq!(game_of(None).response(), Task2Response::naughty(Reason::BadRequest));
    assert_eq!(nice_of(None), Verdict::Naughty);
    assert_eq!(nice_of(None).status(), 400);
}

#[test]
fn with_a_text_the_games_are_played() {
    assert_eq!(game_of(Some("password")), Reason::FewKinds);
    assert_eq!(game_of(Some(GOOD)), Reason::Success);
    assert_eq!(game_of(Some("")), Reason::TooShort);
    assert_eq!(nice_of(Some("hello there")), Verdict::Nice);
    assert_eq!(nice_of(Some("abcd")), Verdict::Naughty);
    assert_eq!(nice_of(Some("")), Verdict::Naughty);
}
