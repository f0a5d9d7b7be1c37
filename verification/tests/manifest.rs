use videofuser::manifest::codec::{parse_ebml, serialize_ebml};
use videofuser::manifest::formats::{parse_md, parse_nfo, parse_xml};
use videofuser::manifest::{Manifest, ManifestError, ManifestTrack, TrackKind, VariantEntry};

    fn sample_manifest() -> Manifest {
        Manifest {
            title: "Película Maravillosa".to_string(),
            year: 1995,
            original_mkv_filename: "pelicula.mkv".to_string(),
            original_mkv_hash: [0xAB; 32],
            original_language: "spa".to_string(),
            system_version: "1.0".to_string(),
            publisher: "Test Publisher".to_string(),
            tracks: vec![
                ManifestTrack {
                    track_id: 1,
                    kind: TrackKind::Video,
                    language: None,
                    codec: "V_MPEG4/ISO/AVC".to_string(),
                    variant: Some("00".to_string()),
                    resolution: Some("1080p".to_string()),
                },
                ManifestTrack {
                    track_id: 100,
                    kind: TrackKind::Audio,
                    language: Some("spa".to_string()),
                    codec: "A_AC3".to_string(),
                    variant: Some("00".to_string()),
                    resolution: None,
                },
            ],
            variants_legend: vec![
                VariantEntry { id: "00".to_string(), description: "Doblaje principal".to_string() },
            ],
        }
    }

    #[test]
    fn ebml_round_trip() {
        let m = sample_manifest();
        let bytes = serialize_ebml(&m).unwrap();
        let decoded = parse_ebml(&bytes).unwrap();
        assert_eq!(decoded.title, m.title);
        assert_eq!(decoded.year, m.year);
        assert_eq!(decoded.original_mkv_hash, m.original_mkv_hash);
        assert_eq!(decoded.original_language, m.original_language);
        assert_eq!(decoded.tracks.len(), 2);
        assert_eq!(decoded.tracks[0].codec, "V_MPEG4/ISO/AVC");
        assert_eq!(decoded.tracks[1].language, Some("spa".to_string()));
        assert_eq!(decoded.variants_legend.len(), 1);
        assert_eq!(decoded.variants_legend[0].id, "00");
    }

    #[test]
    fn parse_xml_basic() {
        let xml = r#"<videofuser-manifest version="1">
  <title>Película Maravillosa</title>
  <year>1995</year>
  <hash>abababababababababababababababababababababababababababababababababab</hash>
  <publisher>Test Publisher</publisher>
  <original-language>spa</original-language>
  <tracks>
    <track id="1" type="video" codec="h264" resolution="1080p" variant="00" />
    <track id="100" type="audio" language="spa" codec="eac3" variant="00" />
  </tracks>
  <variants>
    <variant id="00" description="Doblaje principal" />
  </variants>
</videofuser-manifest>"#;
        let m = parse_xml(xml).unwrap();
        assert_eq!(m.title, "Película Maravillosa");
        assert_eq!(m.year, 1995);
        assert_eq!(m.tracks.len(), 2);
        assert!(matches!(m.tracks[0].kind, TrackKind::Video));
        assert!(matches!(m.tracks[1].kind, TrackKind::Audio));
        assert_eq!(m.variants_legend.len(), 1);
    }

    #[test]
    fn parse_nfo_basic() {
        let nfo = r#"<movie>
  <title>Película Maravillosa</title>
  <year>1995</year>
  <plot>Una película increíble.</plot>
</movie>"#;
        let m = parse_nfo(nfo).unwrap();
        assert_eq!(m.title, "Película Maravillosa");
        assert_eq!(m.year, 1995);
    }

    #[test]
    fn parse_md_basic() {
        let md = r#"# Película Maravillosa (1995)

## Información general
- **Año**: 1995
- **Idioma original**: spa
- **Publicador**: Test Publisher
- **Hash del MKV original**: abababababababababababababababababababababababababababababababababab
"#;
        let m = parse_md(md).unwrap();
        assert_eq!(m.title, "Película Maravillosa");
        assert_eq!(m.year, 1995);
        assert_eq!(m.original_language, "spa");
        assert_eq!(m.publisher, "Test Publisher");
    }

#[test]
fn what_was_written_reads_back() {
    let m = sample_manifest();
    assert_eq!(parse_ebml(&serialize_ebml(&m).unwrap()).unwrap(), m);
}

#[test]
fn broken_manifests_are_told_apart() {
    assert_eq!(parse_ebml(&[]).unwrap_err(), ManifestError::Ebml("unexpected EOF"));
    assert_eq!(
        parse_ebml(&[0x40, 0x41, 0x80]).unwrap_err(),
        ManifestError::Ebml("expected ManifestFile root element")
    );
    assert_eq!(parse_ebml(&[0x40, 0x40, 0x80]).unwrap_err(), ManifestError::MissingField("title"));
    assert_eq!(
        parse_ebml(&[0x40, 0x40, 0x84, 0x40, 0x41, 0x81, b'T']).unwrap_err(),
        ManifestError::MissingField("original_mkv_hash")
    );
    assert_eq!(
        parse_ebml(&[0x40, 0x40, 0x84, 0x40, 0x41, 0x81, 0xFF]).unwrap_err(),
        ManifestError::Ebml("invalid UTF-8 string")
    );
    assert_eq!(
        parse_ebml(&[0x40, 0x40, 0x81]).unwrap_err(),
        ManifestError::Ebml("unexpected EOF reading payload")
    );
}

#[test]
fn kinds_have_numbers() {
    assert_eq!(TrackKind::Video.as_u8(), 0);
    assert_eq!(TrackKind::Audio.as_u8(), 1);
    assert_eq!(TrackKind::Subtitle.as_u8(), 2);
}

#[test]
fn attributes_of_tags_are_read() {
    let xml = "<title> T </title><track id=\"7\" type=\"subtitle\" language=\"es\" codec=\"srt\" variant=\"01\" />\
               <variant id=\"01\" description=\"Dub\" />";
    let m = parse_xml(xml).unwrap();
    assert_eq!(m.tracks[0].track_id, 7);
    assert!(matches!(m.tracks[0].kind, TrackKind::Subtitle));
    assert_eq!(m.tracks[0].language, Some("es".to_string()));
    assert_eq!(m.tracks[0].variant, Some("01".to_string()));
    assert_eq!(m.tracks[0].resolution, None);
    assert_eq!(m.variants_legend[0].description, "Dub");
    assert_eq!(m.original_mkv_hash, [0u8; 32]);
}

#[test]
fn a_tag_that_does_not_end_goes_on_to_the_end() {
    let m = parse_xml("<title>T</title><track id=\"1\"").unwrap();
    assert_eq!(m.title, "T");
    assert_eq!(m.tracks.len(), 1);
    assert_eq!(m.tracks[0].track_id, 1);
    let v = parse_xml("<variant id=\"02\" description=\"D\"").unwrap();
    assert_eq!(v.variants_legend[0].id, "02");
    assert_eq!(v.variants_legend[0].description, "D");
}
