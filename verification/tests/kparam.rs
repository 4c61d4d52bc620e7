use badgeros::misc::kparam::KParams;

#[test]
fn kparams_parse_words() {
    let mut k = KParams::new();
    let nonascii = k.parse_kparams(b"  root=/dev/sda1\tquiet  init=/sbin/init\0loglevel=7\n");
    assert!(!nonascii);
    assert_eq!(k.get_kparam(b"root"), Some(&b"/dev/sda1".to_vec()));
    assert_eq!(k.get_kparam(b"quiet"), Some(&Vec::new()));
    assert_eq!(k.get_kparam(b"init"), Some(&b"/sbin/init".to_vec()));
    assert_eq!(k.get_kparam(b"loglevel"), Some(&b"7".to_vec()));
    assert_eq!(k.get_kparam(b"missing"), None);
}

#[test]
fn kparams_first_value_wins() {
    let mut k = KParams::new();
    k.parse_kparams(b"a=1 b=x=y a=2");
    assert_eq!(k.get_kparam(b"a"), Some(&b"1".to_vec()));
    assert_eq!(k.get_kparam(b"b"), Some(&b"x=y".to_vec()));
    assert!(!k.add_kparam(b"b".to_vec(), b"z".to_vec()));
    assert!(k.add_kparam(b"c".to_vec(), b"z".to_vec()));
    assert_eq!(k.get_kparam(b"c"), Some(&b"z".to_vec()));
}

#[test]
fn kparams_skip_non_ascii_words() {
    let mut k = KParams::new();
    let nonascii = k.parse_kparams(&[b'x', b'=', 0xc3, 0xa9, b' ', b'y', b'=', b'1']);
    assert!(nonascii);
    assert_eq!(k.get_kparam(b"x"), None);
    assert_eq!(k.get_kparam(b"y"), Some(&b"1".to_vec()));
}

#[test]
fn kparams_empty_key() {
    let mut k = KParams::new();
    k.parse_kparams(b"=v");
    assert_eq!(k.get_kparam(b""), Some(&b"v".to_vec()));
}
