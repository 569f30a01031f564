use musicus_server::captcha::{questions, CaptchaManager, Question};
use musicus_server::text::str_eq;
use musicus_server::users::User;
use musicus_server::work_parts::{decode_work_parts, encode_work_parts};

#[test]
fn encodes_decimal_joined_by_commas() {
    assert_eq!(encode_work_parts(&vec![0, 1]), "0,1");
    assert_eq!(encode_work_parts(&vec![2]), "2");
    assert_eq!(encode_work_parts(&vec![10, 305, 7]), "10,305,7");
    assert_eq!(encode_work_parts(&vec![]), "");
    assert_eq!(encode_work_parts(&vec![usize::MAX]), usize::MAX.to_string());
}

#[test]
fn decodes_what_it_encodes() {
    for parts in [vec![0usize], vec![0, 1], vec![2], vec![10, 305, 7], vec![usize::MAX, 0]] {
        assert_eq!(decode_work_parts(&encode_work_parts(&parts)), Some(parts));
    }
}

#[test]
fn decode_accepts_leading_zeros() {
    assert_eq!(decode_work_parts("007,0"), Some(vec![7, 0]));
}

#[test]
fn decode_rejects_malformed() {
    for bad in ["", ",", "1,", ",1", "1,,2", "a", " 1", "1 ", "+1", "-1", "18446744073709551616"] {
        assert_eq!(decode_work_parts(bad), None, "{:?}", bad);
    }
}

#[test]
fn compares_text() {
    assert!(str_eq("abc", "abc"));
    assert!(!str_eq("abc", "abd"));
    assert!(!str_eq("abc", "ab"));
    assert!(str_eq("", ""));
}

#[test]
fn permissions() {
    let u = User { username: "alice".to_string(), is_admin: false, is_editor: false, is_banned: false };
    assert!(u.may_create() && u.may_edit("alice") && !u.may_edit("bob") && !u.may_delete());
    let e = User { username: "eve".to_string(), is_admin: false, is_editor: true, is_banned: false };
    assert!(e.may_edit("bob") && e.may_delete());
    let b = User { username: "bob".to_string(), is_admin: true, is_editor: true, is_banned: true };
    assert!(!b.may_create() && !b.may_edit("bob") && !b.may_delete());
}

#[test]
fn captcha_is_answered_once() {
    let mut manager = CaptchaManager::new();
    let q = Question { question: "2 + 2?".to_string(), answer: "4".to_string() };
    let c = manager.register_captcha("id1".to_string(), q);
    assert_eq!(c.question, "2 + 2?");
    assert!(manager.check_captcha("id1", "4"));
    assert!(!manager.check_captcha("id1", "4"));
}

#[test]
fn wrong_answer_forgets_captcha() {
    let mut manager = CaptchaManager::new();
    manager.register_captcha("id1".to_string(), Question { question: "q".to_string(), answer: "1833".to_string() });
    assert!(!manager.check_captcha("id1", "1897"));
    assert!(!manager.check_captcha("id1", "1833"));
    assert!(!manager.check_captcha("unknown", ""));
}

#[test]
fn generated_captcha_asks_a_known_question() {
    let mut manager = CaptchaManager::new();
    let c = manager.generate_captcha();
    let qs = questions();
    assert_eq!(qs.len(), 8);
    let q = qs.iter().find(|q| q.question == c.question).expect("known question");
    assert_eq!(c.id.len(), 32);
    assert!(manager.check_captcha(&c.id, &q.answer));
}
