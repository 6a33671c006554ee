use uda_stats::competition::Convention;
use uda_stats::convention::compute_conventions_to_download;
use uda_stats::credentials::{retrieve_env_value_from_line, Credentials};
use uda_stats::download::{is_authorized, is_signed_in};

#[test]
fn conventions_to_download_are_the_missing_ones_once() {
    let known = vec![Convention::new(String::from("cfm2023"), String::from("CFM"))];
    let required = vec![String::from("cfm2023"), String::from("unicon2020"), String::from("unicon2020")];
    assert_eq!(compute_conventions_to_download(&known, &required), vec![String::from("unicon2020")]);
}

#[test]
fn credentials_prefer_the_environment() {
    let c = Credentials::load_credentials(Some(String::from("u")), Some(String::from("p")), None).unwrap();
    assert_eq!(c.username(), "u");
    assert_eq!(c.password(), "p");
}

#[test]
fn credentials_fall_back_to_the_env_file() {
    let file = String::from("OTHER=1\r\nUDA_USERNAME=me\r\nUDA_PASSWORD=secret\r\n");
    let c = Credentials::load_credentials(Some(String::from("u")), None, Some(file)).unwrap();
    assert_eq!(c.username(), "me");
    assert_eq!(c.password(), "secret");
}

#[test]
fn credentials_missing_everywhere_are_an_error() {
    let file = String::from("UDA_USERNAME=me\n");
    assert!(Credentials::load_credentials(None, None, Some(file)).is_err());
    assert!(Credentials::load_credentials(None, None, None).is_err());
}

#[test]
fn refusal_pages_are_not_authorized() {
    assert!(!is_authorized(b"<p>You are not authorized to perform this action</p>".to_vec()));
    assert!(is_authorized(b"id,name\n1,John".to_vec()));
    assert!(is_authorized(vec![0xff, 0xfe, 0x00]));
}

#[test]
fn sign_in_pages_are_recognised() {
    assert!(is_signed_in("<div>Signed in successfully.</div>"));
    assert!(is_signed_in("You are already signed in."));
    assert!(!is_signed_in("Invalid email or password."));
}

#[test]
fn env_lines_give_the_value_after_the_key() {
    assert_eq!(retrieve_env_value_from_line("UDA_USERNAME=me\r", "UDA_USERNAME"), Some(String::from("me")));
    assert_eq!(retrieve_env_value_from_line("UDA_USERNAME=a=b", "UDA_USERNAME"), Some(String::from("a=b")));
    assert_eq!(retrieve_env_value_from_line("UDA_USERNAMEX=me", "UDA_USERNAME"), None);
    assert_eq!(retrieve_env_value_from_line("", "UDA_USERNAME"), None);
}

#[test]
fn env_file_takes_the_last_value_of_each_key() {
    let file = "UDA_USERNAME=old\nUDA_PASSWORD=pw\nUDA_USERNAME=new\n";
    let c = Credentials::from_env_file(file).unwrap();
    assert_eq!(c.username(), "new");
    assert_eq!(c.password(), "pw");
    assert!(Credentials::from_env_file("UDA_USERNAME=\nUDA_PASSWORD=pw").is_none());
}
