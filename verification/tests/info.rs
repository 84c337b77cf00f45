use pdfrust::info::Info;

#[test]
fn test_info_dict_1() {
    let bytes = b"1 0 obj\n<< /Title (sample) /Author (Philip Hutchison) /Creator (Pages) /Producer (Mac OS X 10.5.4 Quartz PDFContext)\n/CreationDate (D:20080701052447Z00'00') /ModDate (D:20080701052447Z00'00')\n>>\nendobj";
    let info = Info::new(bytes.as_slice(), 0);
    assert_eq!(
        info,
        Info {
            title: Some(String::from("sample")),
            author: Some(String::from("Philip Hutchison")),
            creator: Some(String::from("Pages")),
            producer: Some(String::from("Mac OS X 10.5.4 Quartz PDFContext")),
            creation_date: Some(String::from("D:20080701052447Z00'00'")),
            mod_date: Some(String::from("D:20080701052447Z00'00'"))
        }
    );
}

#[test]
fn info_entry_of_the_wrong_kind_is_refused() {
    assert!(Info::try_new(b"<< /Title 3 >>".as_slice(), 0).is_err());
    assert!(Info::try_new(b"<< /Title (t) >>".as_slice(), 9).is_err());
}
