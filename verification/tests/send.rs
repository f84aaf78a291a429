//! Names that attachments are written under.
use msg::daemon::send::attachment_name;

#[test]
fn strips_anything_that_could_escape_the_directory() {
    assert_eq!(attachment_name("photo.png"), "photo.png");
    assert_eq!(attachment_name("/etc/passwd"), "passwd");
    assert_eq!(attachment_name("../../../etc/passwd"), "passwd");
    assert_eq!(attachment_name(".ssh"), "ssh");
    assert_eq!(attachment_name("..."), "attachment");
    assert_eq!(attachment_name(""), "attachment");
    assert_eq!(attachment_name("/"), "attachment");
    assert_eq!(attachment_name(".."), "attachment");
    assert_eq!(attachment_name("a/b/../c.txt"), "c.txt");
}
