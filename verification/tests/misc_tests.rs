use sizes::conf::app_db_path;
use sizes::Error;

#[test]
fn test_global_conf_dir() {
    let dir = app_db_path("/home/someone");
    println!("dir is {}", dir);
    assert_eq!(dir, "/home/someone/.config/sizes/app.db");
}

#[test]
fn test_common_error() {
    let s = "some error description";
    let err = Error::new(s);
    println!("err is {}", err.as_str());
}
