//! What two offers lead to.

use velyx::{
    negotiate, parse_server_and_validate, CapabilitySet, ClientFinish, ClientHello, Error,
    Negotiated, ServerHello, CAP_DHT_V1, CAP_FEC_V1, CAP_OBFS_V1, CAP_RELAY_V1,
};

fn caps(min_version: u8, max_version: u8, mask: u64) -> CapabilitySet {
    CapabilitySet { min_version, max_version, mask }
}

fn hello(min_version: u8, max_version: u8, caps: u64) -> ClientHello {
    ClientHello { min_version, max_version, caps }
}

#[test]
fn capability_bits() {
    assert_eq!(CAP_FEC_V1, 0x1);
    assert_eq!(CAP_DHT_V1, 0x2);
    assert_eq!(CAP_OBFS_V1, 0x4);
    assert_eq!(CAP_RELAY_V1, 0x8);
    let mvp = CapabilitySet::mvp_default();
    assert_eq!((mvp.min_version, mvp.max_version, mvp.mask), (1, 1, 7));
}

#[test]
fn hellos_have_their_exact_bytes() {
    let client = hello(1, 2, 0x0102);
    assert_eq!(client.encode(), [1, 2, 0, 0, 0, 0, 0, 0, 1, 2]);
    assert_eq!(ClientHello::decode(&client.encode()), Ok(client));
    let server = ServerHello {
        min_version: 1,
        max_version: 3,
        caps: 4,
        selected_version: 2,
        selected_caps: 5,
    };
    assert_eq!(
        server.encode(),
        [1, 3, 0, 0, 0, 0, 0, 0, 0, 4, 2, 0, 0, 0, 0, 0, 0, 0, 5]
    );
    assert_eq!(ServerHello::decode(&server.encode()), Ok(server));
    let finish = ClientFinish { selected_version: 2, selected_caps: 5 };
    assert_eq!(finish.encode(), [2, 0, 0, 0, 0, 0, 0, 0, 5]);
    assert_eq!(ClientFinish::decode(&finish.encode()), Ok(finish));
}

#[test]
fn hello_lengths_are_fixed() {
    assert_eq!(
        ClientHello::decode(&[0; 11]),
        Err(Error::InvalidClientHelloLength { len: 11 })
    );
    assert_eq!(
        ServerHello::decode(&[0; 18]),
        Err(Error::InvalidServerHelloLength { len: 18 })
    );
    assert_eq!(
        ClientFinish::decode(&[0; 8]),
        Err(Error::InvalidClientFinishLength { len: 8 })
    );
}

#[test]
fn negotiation_takes_the_highest_shared_version() {
    assert_eq!(
        negotiate(caps(1, 5, 0b1101), hello(3, 9, 0b0111)),
        Ok(Negotiated { version: 5, caps: 0b0101 })
    );
    assert_eq!(
        negotiate(caps(3, 9, 0b0111), hello(1, 5, 0b1101)),
        Ok(Negotiated { version: 5, caps: 0b0101 })
    );
}

#[test]
fn negotiation_refusals() {
    assert_eq!(negotiate(caps(2, 1, 0), hello(1, 1, 0)), Err(Error::LocalVersionBounds));
    assert_eq!(negotiate(caps(1, 1, 0), hello(2, 1, 0)), Err(Error::RemoteVersionBounds));
    assert_eq!(
        negotiate(caps(1, 2, 0), hello(3, 4, 0)),
        Err(Error::NoSharedVersion { local_min: 1, local_max: 2, remote_min: 3, remote_max: 4 })
    );
}

#[test]
fn downgraded_selection_is_refused() {
    let local = caps(1, 2, 7);
    let good = ServerHello {
        min_version: 1,
        max_version: 2,
        caps: 3,
        selected_version: 2,
        selected_caps: 3,
    };
    assert_eq!(
        parse_server_and_validate(local, good),
        Ok(Negotiated { version: 2, caps: 3 })
    );
    assert_eq!(
        parse_server_and_validate(local, ServerHello { selected_version: 1, ..good }),
        Err(Error::ServerVersionMismatch { got: 1, expected: 2 })
    );
    assert_eq!(
        parse_server_and_validate(local, ServerHello { selected_caps: 1, ..good }),
        Err(Error::ServerCapabilitiesMismatch { got: 1, expected: 3 })
    );
    assert_eq!(
        parse_server_and_validate(local, ServerHello { min_version: 3, ..good }),
        Err(Error::RemoteVersionBounds)
    );
}
