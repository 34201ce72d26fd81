use pegy::util::{Boxed, Recursive, ALPHANUMERIC};
use pegy::{Error, Parse, Source};

type RecursiveName = Recursive<Boxed<Name>>;

#[derive(Debug, Default, PartialEq, Eq)]
struct Name(char, Option<Box<Name>>);

impl Parse for Name {
    type Output = Name;

    fn parse<S: Source>(src: &mut S) -> Result<Self::Output, Error> {
        let start = src.current_position();
        let item0 = match ALPHANUMERIC::parse(src) {
            Ok(v) => v,
            Err(e) => {
                src.set_position(start);
                return Err(e);
            }
        };
        let item1 = match <Option<RecursiveName> as Parse>::parse(src) {
            Ok(v) => v,
            Err(e) => {
                src.set_position(start);
                return Err(e);
            }
        };
        Ok(Name(item0, item1))
    }
}

#[test]
fn test_recursive_str() {
    let name = pegy::parse_blocking::<Name, _>("ty46ncis");

    assert_eq!(
        name,
        Ok(Name(
            't',
            Some(Box::new(Name(
                'y',
                Some(Box::new(Name(
                    '4',
                    Some(Box::new(Name(
                        '6',
                        Some(Box::new(Name(
                            'n',
                            Some(Box::new(Name(
                                'c',
                                Some(Box::new(Name('i', Some(Box::new(Name('s', None))))))
                            )))
                        )))
                    )))
                )))
            )))
        ))
    )
}
