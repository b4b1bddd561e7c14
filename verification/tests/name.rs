use assets::{Name, NameError};

#[test]
fn roundtrip() {
    for s in ["librelith:stone", "librelith:block/wood/oak_planks"] {
        assert_eq!(s.parse::<Name>().unwrap().as_str(), s)
    }
}

#[test]
fn rejects() {
    assert_eq!("stone".parse::<Name>(), Err(NameError::MissingColon));
    assert_eq!(
        "Lib:stone".parse::<Name>(),
        Err(NameError::BadChar { ch: 'L', at: 0 })
    );
    assert_eq!(
        "a:B/c".parse::<Name>(),
        Err(NameError::BadChar { ch: 'B', at: 2 })
    );
    assert_eq!(
        "a:b//c".parse::<Name>(),
        Err(NameError::EmptySegment { at: 4 })
    );
    assert_eq!("a:".parse::<Name>(), Err(NameError::EmptySegment { at: 2 }));
    assert_eq!(":".parse::<Name>(), Err(NameError::EmptyNamespace));
    assert_eq!(":b".parse::<Name>(), Err(NameError::EmptyNamespace));
    assert_eq!(
        "a:b:c".parse::<Name>(),
        Err(NameError::BadChar { ch: ':', at: 3 })
    );
}
