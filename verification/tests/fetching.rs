use tile_mosaic::fetch::{check_response, FetchError, TransportStep};
use tile_mosaic::geometry::TileIndex;
use tile_mosaic::tileset::TileSet;

#[test]
fn png_with_status_200_is_accepted() {
    assert_eq!(check_response("http://t/1/2/3.png", 200, Some("image/png")), Ok(()));
}

#[test]
fn status_404_is_an_upstream_status_error_with_the_url() {
    let url = TileSet::Osm.tile_url(&TileIndex { x: 3366, y: 2431, z: 12 });
    let out = check_response(&url, 404, Some("image/png"));
    assert_eq!(
        out,
        Err(FetchError::UpstreamStatus {
            url: String::from("https://tile.openstreetmap.org/12/3366/2431.png"),
            status: 404,
        })
    );
}

#[test]
fn html_is_a_content_type_error_distinct_from_a_status_error() {
    let out = check_response("http://t/1/2/3.png", 200, Some("text/html"));
    assert_eq!(
        out,
        Err(FetchError::ContentType {
            url: String::from("http://t/1/2/3.png"),
            content_type: String::from("text/html"),
        })
    );
    assert!(!matches!(out, Err(FetchError::UpstreamStatus { .. })));
}

#[test]
fn missing_content_type_is_a_content_type_error() {
    let out = check_response("http://t/1/2/3.png", 200, None);
    assert_eq!(
        out,
        Err(FetchError::ContentType {
            url: String::from("http://t/1/2/3.png"),
            content_type: String::new(),
        })
    );
}

#[test]
fn content_type_must_match_exactly() {
    assert!(check_response("u", 200, Some("image/png; charset=utf-8")).is_err());
    assert!(check_response("u", 200, Some("IMAGE/PNG")).is_err());
    assert!(check_response("u", 200, Some("image/jpeg")).is_err());
}

#[test]
fn status_is_judged_before_content_type() {
    let out = check_response("u", 500, Some("text/html"));
    assert_eq!(out, Err(FetchError::UpstreamStatus { url: String::from("u"), status: 500 }));
}

#[test]
fn other_success_statuses_are_not_accepted() {
    assert!(matches!(
        check_response("u", 204, Some("image/png")),
        Err(FetchError::UpstreamStatus { status: 204, .. })
    ));
    assert!(matches!(
        check_response("u", 201, Some("image/png")),
        Err(FetchError::UpstreamStatus { status: 201, .. })
    ));
}

#[test]
fn messages_name_url_and_cause() {
    let e = FetchError::Transport {
        url: String::from("http://a"),
        step: TransportStep::Request,
        detail: String::from("refused"),
    };
    assert_eq!(e.message(), "Failed to send request to http://a: refused");
    let e = FetchError::UpstreamStatus { url: String::from("http://a"), status: 404 };
    assert_eq!(e.message(), "Request to http://a failed with status: 404");
    let e = FetchError::ContentType {
        url: String::from("http://a"),
        content_type: String::from("text/html"),
    };
    assert_eq!(e.message(), "Unexpected content type from http://a: text/html");
    let e = FetchError::Transport {
        url: String::from("http://a"),
        step: TransportStep::Body,
        detail: String::from("cut"),
    };
    assert_eq!(e.message(), "Failed to read response body from http://a: cut");
}

#[test]
fn every_error_names_its_url() {
    let errors = [
        FetchError::Transport {
            url: String::from("u1"),
            step: TransportStep::Request,
            detail: String::new(),
        },
        FetchError::UpstreamStatus { url: String::from("u2"), status: 0 },
        FetchError::ContentType { url: String::from("u3"), content_type: String::new() },
        FetchError::Transport {
            url: String::from("u4"),
            step: TransportStep::Body,
            detail: String::new(),
        },
    ];
    assert_eq!(errors[0].url(), "u1");
    assert_eq!(errors[1].url(), "u2");
    assert_eq!(errors[2].url(), "u3");
    assert_eq!(errors[3].url(), "u4");
}
