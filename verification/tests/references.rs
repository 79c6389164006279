use nsid::nsid::validate_fragment;
use nsid::{Fragment, FullReference, Nsid, ParseError, Reference};

#[test]
fn fragment_format() {
    let f = Fragment::from_str("#fooBar1").unwrap();
    assert_eq!(f.as_str(), "#fooBar1");
    assert_eq!(f.to_string(), "#fooBar1");
    assert!(Fragment::from_str("#1").is_ok());
    assert!(Fragment::from_str("#Z").is_ok());
    for s in ["fooBar1", "", "#", "#foo-bar", "#foo_bar", "#foo bar", "##foo", "#foo#", "#fö", " #foo"] {
        assert_eq!(Fragment::from_str(s), Err(ParseError::NsidFragmentFormat), "{}", s);
    }
}

#[test]
fn fragment_length_boundary() {
    let ok = format!("#{}", "a".repeat(63));
    assert_eq!(Fragment::from_str(&ok).unwrap().to_string(), ok);
    let bad = format!("#{}", "a".repeat(64));
    assert_eq!(Fragment::from_str(&bad), Err(ParseError::NsidFragmentFormat));
}

#[test]
fn fragment_parse_through_trait() {
    let f: Fragment = "#main".parse().unwrap();
    assert_eq!(f.as_str(), "#main");
    assert_eq!(f.clone(), f);
    let e: Result<Fragment, ParseError> = "main".parse();
    assert_eq!(e, Err(ParseError::NsidFragmentFormat));
}

#[test]
fn validate_fragment_on_bytes() {
    assert_eq!(validate_fragment(b"#abc"), Ok(()));
    assert_eq!(validate_fragment(b"abc"), Err(ParseError::NsidFragmentFormat));
    assert_eq!(validate_fragment(b"#"), Err(ParseError::NsidFragmentFormat));
    assert_eq!(validate_fragment(b""), Err(ParseError::NsidFragmentFormat));
    assert_eq!(validate_fragment(&[0x23, 0xc3, 0xa9]), Err(ParseError::NsidFragmentFormat));
}

#[test]
fn full_reference_split() {
    let r = FullReference::from_str("com.example.foo#bar").unwrap();
    assert_eq!(r.as_str(), "com.example.foo#bar");
    assert_eq!(r.to_string(), "com.example.foo#bar");
    assert!(r.has_fragment());
    assert_eq!(r.clone_nsid().to_string(), "com.example.foo");
    assert_eq!(r.clone_nsid(), Nsid::from_str("com.example.foo").unwrap());
    assert_eq!(r.fragment_name(), Some("bar"));
    assert_eq!(r.clone_fragment().unwrap().to_string(), "#bar");
    assert_eq!(r.clone_fragment(), Some(Fragment::from_str("#bar").unwrap()));
}

#[test]
fn full_reference_without_fragment() {
    let r = FullReference::from_str("com.example.foo").unwrap();
    assert_eq!(r.to_string(), "com.example.foo");
    assert!(!r.has_fragment());
    assert_eq!(r.clone_nsid().as_str(), "com.example.foo");
    assert_eq!(r.fragment_name(), None);
    assert_eq!(r.clone_fragment(), None);
}

#[test]
fn full_reference_errors() {
    // the identifier is malformed
    assert_eq!(FullReference::from_str("com.example#bar"), Err(ParseError::NsidFormat));
    assert_eq!(FullReference::from_str("#bar"), Err(ParseError::NsidFormat));
    assert_eq!(FullReference::from_str(""), Err(ParseError::NsidFormat));
    assert_eq!(FullReference::from_str("com.exa🤯ple.thing#bar"), Err(ParseError::NsidFormat));
    // the fragment is malformed
    assert_eq!(FullReference::from_str("com.example.foo#"), Err(ParseError::NsidFragmentFormat));
    assert_eq!(
        FullReference::from_str("com.example.foo#a-b"),
        Err(ParseError::NsidFragmentFormat)
    );
    assert_eq!(
        FullReference::from_str("com.example.foo#a#b"),
        Err(ParseError::NsidFragmentFormat)
    );
    assert_eq!(
        FullReference::from_str("com.example.foo#bär"),
        Err(ParseError::NsidFragmentFormat)
    );
    // both are: the identifier is looked at first
    assert_eq!(FullReference::from_str("com.example#a-b"), Err(ParseError::NsidFormat));
}

#[test]
fn full_reference_parse_through_trait() {
    let r: FullReference = "a.b.c#d".parse().unwrap();
    assert_eq!(r.fragment_name(), Some("d"));
    assert_eq!(r.clone(), r);
}

#[test]
fn full_reference_from_nsid() {
    let n = Nsid::from_str("com.example.fooBar").unwrap();
    let r = FullReference::from(n.clone());
    assert_eq!(r.to_string(), "com.example.fooBar");
    assert!(!r.has_fragment());
    assert_eq!(r.clone_fragment(), None);
    assert_eq!(r.fragment_name(), None);
    assert_eq!(r.clone_nsid(), n);
    assert_eq!(r, FullReference::from_str("com.example.fooBar").unwrap());
    let again = FullReference::from_nsid(n.clone());
    assert_eq!(again, r);
    let into: FullReference = n.into();
    assert_eq!(into, r);
}

#[test]
fn full_reference_longest() {
    let nsid = format!(
        "{}.{}.{}.{}.{}",
        "a".repeat(63),
        "b".repeat(63),
        "c".repeat(63),
        "d".repeat(60),
        "e".repeat(63)
    );
    let text = format!("{}#{}", nsid, "f".repeat(63));
    let r = FullReference::from_str(&text).unwrap();
    assert_eq!(r.to_string(), text);
    assert_eq!(r.clone_nsid().as_str(), nsid);
    assert_eq!(r.fragment_name().unwrap().len(), 63);
}

#[test]
fn reference_dispatch() {
    let r = Reference::from_str("#abc").unwrap();
    assert!(matches!(r, Reference::Relative(_)));
    assert_eq!(r.to_string(), "#abc");
    if let Reference::Relative(f) = &r {
        assert_eq!(f.as_str(), "#abc");
    }

    let r = Reference::from_str("com.example.foo").unwrap();
    assert_eq!(r.to_string(), "com.example.foo");
    match &r {
        Reference::Full(full) => {
            assert!(!full.has_fragment());
            assert_eq!(full.clone_fragment(), None);
            assert_eq!(full.clone_nsid().as_str(), "com.example.foo");
        }
        Reference::Relative(_) => panic!("a full reference was expected"),
    }

    let r = Reference::from_str("com.example.foo#bar").unwrap();
    assert_eq!(r.to_string(), "com.example.foo#bar");
    match &r {
        Reference::Full(full) => assert_eq!(full.fragment_name(), Some("bar")),
        Reference::Relative(_) => panic!("a full reference was expected"),
    }
    assert_eq!(r.clone(), r);
}

#[test]
fn reference_errors() {
    assert_eq!(Reference::from_str("#"), Err(ParseError::NsidFragmentFormat));
    assert_eq!(Reference::from_str("#a-b"), Err(ParseError::NsidFragmentFormat));
    assert_eq!(Reference::from_str("#a.b.c"), Err(ParseError::NsidFragmentFormat));
    assert_eq!(Reference::from_str(""), Err(ParseError::NsidFormat));
    assert_eq!(Reference::from_str("com.example"), Err(ParseError::NsidFormat));
    assert_eq!(Reference::from_str("com.example.foo#"), Err(ParseError::NsidFragmentFormat));
    let e: Result<Reference, ParseError> = "a.b".parse();
    assert_eq!(e, Err(ParseError::NsidFormat));
}

#[test]
fn reference_round_trip() {
    for s in ["#abc", "#X9", "a.b.c", "com.example.fooBar#main", "cn.8.lex.stuff#a1"] {
        assert_eq!(Reference::from_str(s).unwrap().to_string(), s);
    }
    for s in ["a.b.c", "com.example.fooBar#main"] {
        assert_eq!(FullReference::from_str(s).unwrap().to_string(), s);
    }
}

#[test]
fn error_kinds() {
    assert_eq!(ParseError::nsid(), ParseError::NsidFormat);
    assert_eq!(ParseError::nsid_fragment(), ParseError::NsidFragmentFormat);
    assert_ne!(ParseError::nsid(), ParseError::nsid_fragment());
    assert_eq!(ParseError::nsid().message(), "invalid NSID");
    assert_eq!(ParseError::nsid_fragment().message(), "invalid NSID fragment");
}
