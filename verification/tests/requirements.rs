use std::str::FromStr;

use pep508_rs::Requirement;
use puffin_requirements::Requirements;

fn names(requirements: &Requirements) -> Vec<String> {
    requirements.iter().map(|requirement| requirement.to_string()).collect()
}

#[test]
fn simple() {
    let requirements = Requirements::from_str(r#"flask==2.0"#).unwrap();
    assert_eq!(requirements.len(), 1);
    assert_eq!(requirements[0], Requirement::from_str("flask==2.0").unwrap());
    assert_eq!(names(&requirements), vec!["flask ==2.0"]);
    assert_eq!(
        format!("{:?}", requirements),
        format!("Requirements({:?})", vec![Requirement::from_str("flask==2.0").unwrap()])
    );
}

#[test]
fn pip_compile() {
    let requirements = Requirements::from_str(
        r#"
#
# This file is autogenerated by pip-compile with Python 3.7
# by the following command:
#
#    pip-compile --generate-hashes --output-file=requirements.txt --resolver=backtracking pyproject.toml
#
attrs==23.1.0 \
    --hash=sha256:1f28b4522cdc2fb4256ac1a020c78acf9cba2c6b461ccd2c126f3aa8e8335d04 \
    --hash=sha256:6279836d581513a26f1bf235f9acd333bc9115683f14f7e8fae46c98fc50e015
    # via
    #   cattrs
    #   lsprotocol
cattrs==23.1.2 \
    --hash=sha256:b2bb14311ac17bed0d58785e5a60f022e5431aca3932e3fc5cc8ed8639de50a4 \
    --hash=sha256:db1c821b8c537382b2c7c66678c3790091ca0275ac486c76f3c8f3920e83c657
    # via lsprotocol
exceptiongroup==1.1.3 \
    --hash=sha256:097acd85d473d75af5bb98e41b61ff7fe35efe6675e4f9370ec6ec5126d160e9 \
    --hash=sha256:343280667a4585d195ca1cf9cef84a4e178c4b6cf2274caef9859782b567d5e3
    # via cattrs
importlib-metadata==6.7.0 \
    --hash=sha256:1aaf550d4f73e5d6783e7acb77aec43d49da8017410afae93822cc9cca98c4d4 \
    --hash=sha256:cb52082e659e97afc5dac71e79de97d8681de3aa07ff18578330904a9d18e5b5
    # via
    #   attrs
    #   typeguard
lsprotocol==2023.0.0b1 \
    --hash=sha256:ade2cd0fa0ede7965698cb59cd05d3adbd19178fd73e83f72ef57a032fbb9d62 \
    --hash=sha256:f7a2d4655cbd5639f373ddd1789807450c543341fa0a32b064ad30dbb9f510d4
    # via
    #   pygls
    #   ruff-lsp (pyproject.toml)
packaging==23.2 \
    --hash=sha256:048fb0e9405036518eaaf48a55953c750c11e1a1b68e0dd1a9d62ed0c092cfc5 \
    --hash=sha256:8c491190033a9af7e1d931d0b5dacc2ef47509b34dd0de67ed209b5203fc88c7
    # via ruff-lsp (pyproject.toml)
pygls==1.1.0 \
    --hash=sha256:70acb6fe0df1c8a17b7ce08daa0afdb4aedc6913a6a6696003e1434fda80a06e \
    --hash=sha256:eb19b818039d3d705ec8adbcdf5809a93af925f30cd7a3f3b7573479079ba00e
    # via ruff-lsp (pyproject.toml)
ruff==0.0.292 \
    --hash=sha256:02f29db018c9d474270c704e6c6b13b18ed0ecac82761e4fcf0faa3728430c96 \
    --hash=sha256:1093449e37dd1e9b813798f6ad70932b57cf614e5c2b5c51005bf67d55db33ac \
    --hash=sha256:69654e564342f507edfa09ee6897883ca76e331d4bbc3676d8a8403838e9fade \
    --hash=sha256:6bdfabd4334684a4418b99b3118793f2c13bb67bf1540a769d7816410402a205 \
    --hash=sha256:6c3c91859a9b845c33778f11902e7b26440d64b9d5110edd4e4fa1726c41e0a4 \
    --hash=sha256:7f67a69c8f12fbc8daf6ae6d36705037bde315abf8b82b6e1f4c9e74eb750f68 \
    --hash=sha256:87616771e72820800b8faea82edd858324b29bb99a920d6aa3d3949dd3f88fb0 \
    --hash=sha256:8e087b24d0d849c5c81516ec740bf4fd48bf363cfb104545464e0fca749b6af9 \
    --hash=sha256:9889bac18a0c07018aac75ef6c1e6511d8411724d67cb879103b01758e110a81 \
    --hash=sha256:aa7c77c53bfcd75dbcd4d1f42d6cabf2485d2e1ee0678da850f08e1ab13081a8 \
    --hash=sha256:ac153eee6dd4444501c4bb92bff866491d4bfb01ce26dd2fff7ca472c8df9ad0 \
    --hash=sha256:b76deb3bdbea2ef97db286cf953488745dd6424c122d275f05836c53f62d4016 \
    --hash=sha256:be8eb50eaf8648070b8e58ece8e69c9322d34afe367eec4210fdee9a555e4ca7 \
    --hash=sha256:e854b05408f7a8033a027e4b1c7f9889563dd2aca545d13d06711e5c39c3d003 \
    --hash=sha256:f160b5ec26be32362d0774964e218f3fcf0a7da299f7e220ef45ae9e3e67101a \
    --hash=sha256:f27282bedfd04d4c3492e5c3398360c9d86a295be00eccc63914438b4ac8a83c \
    --hash=sha256:f4476f1243af2d8c29da5f235c13dca52177117935e1f9393f9d90f9833f69e4
    # via ruff-lsp (pyproject.toml)
typeguard==3.0.2 \
    --hash=sha256:bbe993854385284ab42fd5bd3bee6f6556577ce8b50696d6cb956d704f286c8e \
    --hash=sha256:fee5297fdb28f8e9efcb8142b5ee219e02375509cd77ea9d270b5af826358d5a
    # via pygls
typing-extensions==4.7.1 \
    --hash=sha256:440d5dd3af93b060174bf433bccd69b0babc3b15b1a8dca43789fd7f61514b36 \
    --hash=sha256:b75ddc264f0ba5615db7ba217daeb99701ad295353c45f9e95963337ceeeffb2
    # via
    #   cattrs
    #   importlib-metadata
    #   ruff-lsp (pyproject.toml)
    #   typeguard
zipp==3.15.0 \
    --hash=sha256:112929ad649da941c23de50f356a2b5570c954b65150642bccdd66bf194d224b \
    --hash=sha256:48904fc76a60e542af151aded95726c1a5c34ed43ab4134b597665c86d7ad556
    # via importlib-metadata
"#,
    )
    .unwrap();
    let expected = [
        "attrs==23.1.0",
        "cattrs==23.1.2",
        "exceptiongroup==1.1.3",
        "importlib-metadata==6.7.0",
        "lsprotocol==2023.0.0b1",
        "packaging==23.2",
        "pygls==1.1.0",
        "ruff==0.0.292",
        "typeguard==3.0.2",
        "typing-extensions==4.7.1",
        "zipp==3.15.0",
    ];
    assert_eq!(requirements.len(), expected.len());
    for (found, text) in requirements.iter().zip(expected) {
        assert_eq!(found, &Requirement::from_str(text).unwrap());
    }
}

#[test]
fn single_requirement() {
    let requirements = Requirements::from_str("flask==2.0").unwrap();
    assert_eq!(requirements.len(), 1);
    assert_eq!(requirements[0].name, "flask");
}

#[test]
fn empty_manifest_has_no_requirement() {
    assert!(Requirements::from_str("").unwrap().is_empty());
}

#[test]
fn trivia_alone_has_no_requirement() {
    assert!(Requirements::from_str("# comment\n\n   \n").unwrap().is_empty());
    assert!(Requirements::from_str("#\r\n#\r   # x").unwrap().is_empty());
}

#[test]
fn requirements_keep_the_order_of_the_manifest() {
    let requirements = Requirements::from_str("b==2\n# note\na==1\n\nc>=3,<4 # why\n").unwrap();
    assert_eq!(names(&requirements), vec!["b ==2", "a ==1", "c >=3, <4"]);
}

#[test]
fn comment_is_not_parsed() {
    let requirements = Requirements::from_str("pkg==1.0  # a comment\n").unwrap();
    assert_eq!(requirements[..], [Requirement::from_str("pkg==1.0  ").unwrap()]);
}

#[test]
fn hashes_are_not_parsed() {
    let requirements = Requirements::from_str("pkg==1.0 \\\n    --hash=sha256:abc\n").unwrap();
    assert_eq!(requirements[..], [Requirement::from_str("pkg==1.0").unwrap()]);
}

#[test]
fn fragment_of_a_url_is_parsed() {
    let requirements = Requirements::from_str("pkg @ https://example.com/x#fragment\n").unwrap();
    assert_eq!(requirements.len(), 1);
    assert_eq!(
        requirements[0],
        Requirement::from_str("pkg @ https://example.com/x#fragment").unwrap()
    );
    assert_eq!(requirements[0].to_string(), "pkg @ https://example.com/x#fragment");
}

#[test]
fn mixed_line_breaks_give_the_same_requirements() {
    let mixed = Requirements::from_str("a==1\r\nb==2 \\\r --hash=x\rc==3\n").unwrap();
    let plain = Requirements::from_str("a==1\nb==2 \\\n --hash=x\nc==3\n").unwrap();
    assert_eq!(mixed[..], plain[..]);
    assert_eq!(names(&mixed), vec!["a ==1", "b ==2", "c ==3"]);
}

#[test]
fn first_error_fails_the_manifest() {
    let error = Requirements::from_str("a==1\n_b==2\nc==3\n!d\n").unwrap_err();
    assert_eq!(error, Requirement::from_str("_b==2").unwrap_err());
    assert_eq!(error.input, "_b==2");
}

#[test]
fn error_is_that_of_the_stripped_line() {
    let error = Requirements::from_str("a==1\nb==x # why\n").unwrap_err();
    assert_eq!(error, Requirement::from_str("b==x ").unwrap_err());
    assert_eq!(error.input, "b==x ");
}

#[test]
fn line_of_nothing_but_hashes_is_an_error() {
    let error = Requirements::from_str("--hash=sha256:abc\n").unwrap_err();
    assert_eq!(error, Requirement::from_str("").unwrap_err());
}

#[test]
fn parsed_requirement_is_added_at_the_end() {
    let one = Requirements::new().with_parsed(Requirement::from_str("a==1")).unwrap();
    assert_eq!(names(&one), vec!["a ==1"]);
    let two = one.with_parsed(Requirement::from_str("b==2")).unwrap();
    assert_eq!(names(&two), vec!["a ==1", "b ==2"]);
}

#[test]
fn failed_requirement_gives_up_the_collection() {
    let one = Requirements::new().with_parsed(Requirement::from_str("a==1")).unwrap();
    let failure = Requirement::from_str("==").unwrap_err();
    let error = one.with_parsed(Err(failure.clone())).unwrap_err();
    assert_eq!(error, failure);
}

#[test]
fn new_collection_is_empty() {
    assert_eq!(Requirements::new().len(), 0);
}
