//! Version and capability negotiation: the hellos of the handshake.

use crate::codec;
use crate::error::Error;
use vstd::prelude::*;

verus! {

/// One bit per optional feature.
pub type CapabilityMask = u64;

pub const CAP_FEC_V1: CapabilityMask = 1;

pub const CAP_DHT_V1: CapabilityMask = 2;

pub const CAP_OBFS_V1: CapabilityMask = 4;

pub const CAP_RELAY_V1: CapabilityMask = 8;

/// What this node speaks: a range of versions and a set of features.
#[derive(Debug, Clone, Copy)]
pub struct CapabilitySet {
    pub min_version: u8,
    pub max_version: u8,
    pub mask: CapabilityMask,
}

impl CapabilitySet {
    /// What a first implementation offers: version 1 with coding, lookup and obfuscation.
    pub fn mvp_default() -> (caps: Self)
        ensures
            caps == (CapabilitySet {
                min_version: 1,
                max_version: 1,
                mask: CAP_FEC_V1 | CAP_DHT_V1 | CAP_OBFS_V1,
            }),
    {
        CapabilitySet {
            min_version: 1,
            max_version: 1,
            mask: CAP_FEC_V1 | CAP_DHT_V1 | CAP_OBFS_V1,
        }
    }
}

/// What the initiator offers.
#[derive(Debug, Clone, Copy, PartialEq, Eq, Structural)]
pub struct ClientHello {
    pub min_version: u8,
    pub max_version: u8,
    pub caps: CapabilityMask,
}

impl ClientHello {
    /// The length of a client hello.
    pub const LEN: usize = 10;

    /// The hello on the wire.
    pub open spec fn encoded(self) -> Seq<u8> {
        seq![self.min_version, self.max_version] + codec::be_bytes(self.caps as nat, 8)
    }

    /// What some bytes mean as a client hello.
    pub open spec fn decoded(input: Seq<u8>) -> Result<ClientHello, Error> {
        if input.len() != Self::LEN {
            Err(Error::InvalidClientHelloLength { len: input.len() as usize })
        } else {
            Ok(
                ClientHello {
                    min_version: input[0],
                    max_version: input[1],
                    caps: codec::be_field(input, 2, 8) as u64,
                },
            )
        }
    }

    /// The bytes of the hello.
    pub fn encode(&self) -> (out: [u8; 10])
        ensures
            out@ == self.encoded(),
    {
        let mut out: [u8; 10] = [0u8; 10];
        out[0] = self.min_version;
        out[1] = self.max_version;
        codec::put_be(&mut out, 2, self.caps, 8);
        proof {
            codec::lemma_be_u64(self.caps);
        }
        assert(out@ =~= self.encoded());
        out
    }

    /// The hello that `input` holds.
    pub fn decode(input: &[u8]) -> (r: Result<Self, Error>)
        ensures
            r == Self::decoded(input@),
    {
        if input.len() != Self::LEN {
            return Err(Error::InvalidClientHelloLength { len: input.len() });
        }
        Ok(
            ClientHello {
                min_version: input[0],
                max_version: input[1],
                caps: codec::read_u64(input, 2),
            },
        )
    }
}

/// What the responder offers, and what it selected.
#[derive(Debug, Clone, Copy, PartialEq, Eq, Structural)]
pub struct ServerHello {
    pub min_version: u8,
    pub max_version: u8,
    pub caps: CapabilityMask,
    pub selected_version: u8,
    pub selected_caps: CapabilityMask,
}

impl ServerHello {
    /// The length of a server hello.
    pub const LEN: usize = 19;

    /// The hello on the wire.
    pub open spec fn encoded(self) -> Seq<u8> {
        seq![self.min_version, self.max_version] + codec::be_bytes(self.caps as nat, 8)
            + seq![self.selected_version] + codec::be_bytes(self.selected_caps as nat, 8)
    }

    /// What some bytes mean as a server hello.
    pub open spec fn decoded(input: Seq<u8>) -> Result<ServerHello, Error> {
        if input.len() != Self::LEN {
            Err(Error::InvalidServerHelloLength { len: input.len() as usize })
        } else {
            Ok(
                ServerHello {
                    min_version: input[0],
                    max_version: input[1],
                    caps: codec::be_field(input, 2, 8) as u64,
                    selected_version: input[10],
                    selected_caps: codec::be_field(input, 11, 8) as u64,
                },
            )
        }
    }

    /// The bytes of the hello.
    pub fn encode(&self) -> (out: [u8; 19])
        ensures
            out@ == self.encoded(),
    {
        let mut out: [u8; 19] = [0u8; 19];
        out[0] = self.min_version;
        out[1] = self.max_version;
        codec::put_be(&mut out, 2, self.caps, 8);
        out[10] = self.selected_version;
        codec::put_be(&mut out, 11, self.selected_caps, 8);
        proof {
            codec::lemma_be_u64(self.caps);
            codec::lemma_be_u64(self.selected_caps);
        }
        assert(out@ =~= self.encoded());
        out
    }

    /// The hello that `input` holds.
    pub fn decode(input: &[u8]) -> (r: Result<Self, Error>)
        ensures
            r == Self::decoded(input@),
    {
        if input.len() != Self::LEN {
            return Err(Error::InvalidServerHelloLength { len: input.len() });
        }
        Ok(
            ServerHello {
                min_version: input[0],
                max_version: input[1],
                caps: codec::read_u64(input, 2),
                selected_version: input[10],
                selected_caps: codec::read_u64(input, 11),
            },
        )
    }

    /// What the responder offers, in the shape of an offer.
    pub open spec fn offer(self) -> ClientHello {
        ClientHello {
            min_version: self.min_version,
            max_version: self.max_version,
            caps: self.caps,
        }
    }
}

/// The initiator's echo of the selection.
#[derive(Debug, Clone, Copy, PartialEq, Eq, Structural)]
pub struct ClientFinish {
    pub selected_version: u8,
    pub selected_caps: CapabilityMask,
}

impl ClientFinish {
    /// The length of a client finish.
    pub const LEN: usize = 9;

    /// The echo on the wire.
    pub open spec fn encoded(self) -> Seq<u8> {
        seq![self.selected_version] + codec::be_bytes(self.selected_caps as nat, 8)
    }

    /// What some bytes mean as a client finish.
    pub open spec fn decoded(input: Seq<u8>) -> Result<ClientFinish, Error> {
        if input.len() != Self::LEN {
            Err(Error::InvalidClientFinishLength { len: input.len() as usize })
        } else {
            Ok(
                ClientFinish {
                    selected_version: input[0],
                    selected_caps: codec::be_field(input, 1, 8) as u64,
                },
            )
        }
    }

    /// The bytes of the echo.
    pub fn encode(&self) -> (out: [u8; 9])
        ensures
            out@ == self.encoded(),
    {
        let mut out: [u8; 9] = [0u8; 9];
        out[0] = self.selected_version;
        codec::put_be(&mut out, 1, self.selected_caps, 8);
        proof {
            codec::lemma_be_u64(self.selected_caps);
        }
        assert(out@ =~= self.encoded());
        out
    }

    /// The echo that `input` holds.
    pub fn decode(input: &[u8]) -> (r: Result<Self, Error>)
        ensures
            r == Self::decoded(input@),
    {
        if input.len() != Self::LEN {
            return Err(Error::InvalidClientFinishLength { len: input.len() });
        }
        Ok(
            ClientFinish {
                selected_version: input[0],
                selected_caps: codec::read_u64(input, 1),
            },
        )
    }
}

/// What both sides agreed on.
#[derive(Debug, Clone, Copy, PartialEq, Eq, Structural)]
pub struct Negotiated {
    pub version: u8,
    pub caps: CapabilityMask,
}

/// Both sides speak `version`.
pub open spec fn shared_version(local: CapabilitySet, remote: ClientHello, version: u8) -> bool {
    &&& local.min_version <= version <= local.max_version
    &&& remote.min_version <= version <= remote.max_version
}

/// The smaller of the two highest versions.
pub open spec fn highest_version(local: CapabilitySet, remote: ClientHello) -> u8 {
    if local.max_version <= remote.max_version {
        local.max_version
    } else {
        remote.max_version
    }
}

/// What the two offers lead to: the highest shared version and the shared features, or the
/// first reason why there is none.
pub open spec fn negotiation(local: CapabilitySet, remote: ClientHello) -> Result<
    Negotiated,
    Error,
> {
    if local.min_version > local.max_version {
        Err(Error::LocalVersionBounds)
    } else if remote.min_version > remote.max_version {
        Err(Error::RemoteVersionBounds)
    } else if !shared_version(local, remote, highest_version(local, remote)) {
        Err(
            Error::NoSharedVersion {
                local_min: local.min_version,
                local_max: local.max_version,
                remote_min: remote.min_version,
                remote_max: remote.max_version,
            },
        )
    } else {
        Ok(
            Negotiated {
                version: highest_version(local, remote),
                caps: local.mask & remote.caps,
            },
        )
    }
}

/// What a server hello leads to: the negotiation, if the server selected just that.
pub open spec fn server_verdict(local: CapabilitySet, server: ServerHello) -> Result<
    Negotiated,
    Error,
> {
    match negotiation(local, server.offer()) {
        Err(e) => Err(e),
        Ok(expected) => if expected.version != server.selected_version {
            Err(
                Error::ServerVersionMismatch {
                    got: server.selected_version,
                    expected: expected.version,
                },
            )
        } else if expected.caps != server.selected_caps {
            Err(
                Error::ServerCapabilitiesMismatch {
                    got: server.selected_caps,
                    expected: expected.caps,
                },
            )
        } else {
            Ok(expected)
        },
    }
}

/// Selects the highest version and the features that both sides have.
pub fn negotiate(local: CapabilitySet, remote: ClientHello) -> (r: Result<Negotiated, Error>)
    ensures
        r == negotiation(local, remote),
{
    if local.min_version > local.max_version {
        return Err(Error::LocalVersionBounds);
    }
    if remote.min_version > remote.max_version {
        return Err(Error::RemoteVersionBounds);
    }
    let min: u8 = if local.min_version >= remote.min_version {
        local.min_version
    } else {
        remote.min_version
    };
    let max: u8 = if local.max_version <= remote.max_version {
        local.max_version
    } else {
        remote.max_version
    };
    if min > max {
        return Err(
            Error::NoSharedVersion {
                local_min: local.min_version,
                local_max: local.max_version,
                remote_min: remote.min_version,
                remote_max: remote.max_version,
            },
        );
    }
    Ok(Negotiated { version: max, caps: local.mask & remote.caps })
}

/// Checks that the server selected what the two offers lead to.
pub fn parse_server_and_validate(local: CapabilitySet, server: ServerHello) -> (r: Result<
    Negotiated,
    Error,
>)
    ensures
        r == server_verdict(local, server),
{
    let offer = ClientHello {
        min_version: server.min_version,
        max_version: server.max_version,
        caps: server.caps,
    };
    let expected = match negotiate(local, offer) {
        Ok(expected) => expected,
        Err(e) => return Err(e),
    };
    if expected.version != server.selected_version {
        return Err(
            Error::ServerVersionMismatch {
                got: server.selected_version,
                expected: expected.version,
            },
        );
    }
    if expected.caps != server.selected_caps {
        return Err(
            Error::ServerCapabilitiesMismatch {
                got: server.selected_caps,
                expected: expected.caps,
            },
        );
    }
    Ok(expected)
}

/// Every client hello is read back as itself, and accepted bytes are its encoding.
pub proof fn law_client_hello_roundtrip(hello: ClientHello, input: Seq<u8>)
    ensures
        ClientHello::decoded(hello.encoded()) == Ok::<ClientHello, Error>(hello),
        ClientHello::decoded(input) matches Ok(read) ==> read.encoded() == input,
{
    let wire = hello.encoded();
    codec::lemma_be_u64(hello.caps);
    assert(wire.subrange(2, 10) =~= codec::be_bytes(hello.caps as nat, 8));
    if let Ok(read) = ClientHello::decoded(input) {
        codec::lemma_be_field(input, 2, 8);
        codec::lemma_width_bounds();
        assert(read.encoded() =~= input);
    }
}

/// Every server hello is read back as itself, and accepted bytes are its encoding.
pub proof fn law_server_hello_roundtrip(hello: ServerHello, input: Seq<u8>)
    ensures
        ServerHello::decoded(hello.encoded()) == Ok::<ServerHello, Error>(hello),
        ServerHello::decoded(input) matches Ok(read) ==> read.encoded() == input,
{
    let wire = hello.encoded();
    codec::lemma_be_u64(hello.caps);
    codec::lemma_be_u64(hello.selected_caps);
    assert(wire.subrange(2, 10) =~= codec::be_bytes(hello.caps as nat, 8));
    assert(wire.subrange(11, 19) =~= codec::be_bytes(hello.selected_caps as nat, 8));
    if let Ok(read) = ServerHello::decoded(input) {
        codec::lemma_be_field(input, 2, 8);
        codec::lemma_be_field(input, 11, 8);
        codec::lemma_width_bounds();
        assert(read.encoded() =~= input);
    }
}

/// Every client finish is read back as itself, and accepted bytes are its encoding.
pub proof fn law_client_finish_roundtrip(finish: ClientFinish, input: Seq<u8>)
    ensures
        ClientFinish::decoded(finish.encoded()) == Ok::<ClientFinish, Error>(finish),
        ClientFinish::decoded(input) matches Ok(read) ==> read.encoded() == input,
{
    let wire = finish.encoded();
    codec::lemma_be_u64(finish.selected_caps);
    assert(wire.subrange(1, 9) =~= codec::be_bytes(finish.selected_caps as nat, 8));
    if let Ok(read) = ClientFinish::decoded(input) {
        codec::lemma_be_field(input, 1, 8);
        codec::lemma_width_bounds();
        assert(read.encoded() =~= input);
    }
}

/// The negotiated version is the highest that both sides speak, the negotiated features are
/// those that both sides have, and the negotiation succeeds whenever both ranges are proper
/// and meet.
pub proof fn law_negotiation_is_best(local: CapabilitySet, remote: ClientHello, version: u8)
    ensures
        negotiation(local, remote) matches Ok(agreed) ==> {
            &&& shared_version(local, remote, agreed.version)
            &&& shared_version(local, remote, version) ==> version <= agreed.version
            &&& agreed.caps == local.mask & remote.caps
        },
        shared_version(local, remote, version) ==> negotiation(local, remote) is Ok,
{
}

/// What the responder selects from the initiator's offer, the initiator accepts from the
/// responder's hello, and both hold the same version and features.
pub proof fn law_both_sides_agree(initiator: CapabilitySet, responder: CapabilitySet)
    ensures
        ({
            let offer = ClientHello {
                min_version: initiator.min_version,
                max_version: initiator.max_version,
                caps: initiator.mask,
            };
            negotiation(responder, offer) matches Ok(agreed) ==> server_verdict(
                initiator,
                ServerHello {
                    min_version: responder.min_version,
                    max_version: responder.max_version,
                    caps: responder.mask,
                    selected_version: agreed.version,
                    selected_caps: agreed.caps,
                },
            ) == Ok::<Negotiated, Error>(agreed)
        }),
{
    let a = initiator.mask;
    let b = responder.mask;
    assert(a & b == b & a) by (bit_vector);
}

/// No downgrade goes through: a server hello that selects anything but the negotiation of
/// the two offers is refused.
pub proof fn law_no_downgrade(local: CapabilitySet, server: ServerHello)
    ensures
        server_verdict(local, server) is Ok <==> negotiation(local, server.offer()) == Ok::<
            Negotiated,
            Error,
        >(Negotiated { version: server.selected_version, caps: server.selected_caps }),
{
}

/// Offers that lead to no selection are refused, and the first thing wrong is the reason: bounds of
/// this side the wrong way round, bounds of the other side the wrong way round, or no version that
/// both speak. Else there is a selection.
pub proof fn law_negotiation_refusals(local: CapabilitySet, remote: ClientHello)
    ensures
        ({
            let r = negotiation(local, remote);
            if local.min_version > local.max_version {
                r == Err::<Negotiated, Error>(Error::LocalVersionBounds)
            } else if remote.min_version > remote.max_version {
                r == Err::<Negotiated, Error>(Error::RemoteVersionBounds)
            } else if local.max_version < remote.min_version || remote.max_version
                < local.min_version {
                r == Err::<Negotiated, Error>(
                    Error::NoSharedVersion {
                        local_min: local.min_version,
                        local_max: local.max_version,
                        remote_min: remote.min_version,
                        remote_max: remote.max_version,
                    },
                )
            } else {
                &&& r is Ok
                &&& r->Ok_0.version <= local.max_version
                &&& r->Ok_0.version <= remote.max_version
                &&& r->Ok_0.version == local.max_version || r->Ok_0.version == remote.max_version
                &&& r->Ok_0.caps == local.mask & remote.caps
            }
        }),
{
}

/// The initiator takes a responder's hello just where it selects what the two offers lead to. Else
/// the offers' own reason is given, or that another version, or other features, were selected.
pub proof fn law_server_hello_refusals(local: CapabilitySet, server: ServerHello)
    ensures
        ({
            let offer = ClientHello {
                min_version: server.min_version,
                max_version: server.max_version,
                caps: server.caps,
            };
            match negotiation(local, offer) {
                Err(e) => server_verdict(local, server) == Err::<Negotiated, Error>(e),
                Ok(best) => if server.selected_version != best.version {
                    server_verdict(local, server) == Err::<Negotiated, Error>(
                        Error::ServerVersionMismatch {
                            got: server.selected_version,
                            expected: best.version,
                        },
                    )
                } else if server.selected_caps != best.caps {
                    server_verdict(local, server) == Err::<Negotiated, Error>(
                        Error::ServerCapabilitiesMismatch {
                            got: server.selected_caps,
                            expected: best.caps,
                        },
                    )
                } else {
                    server_verdict(local, server) == Ok::<Negotiated, Error>(
                        Negotiated {
                            version: server.selected_version,
                            caps: server.selected_caps,
                        },
                    )
                },
            }
        }),
{
}

} // verus!
