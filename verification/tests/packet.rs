//! Packet formats: parsing, serialization and the round trips between them.

use bytes::{Bytes, BytesMut};
use rist::error::RistError;
use rist::packet::rtcp::{RtcpCommonHeader, RtcpCompound, RtcpPacket};
use rist::packet::rtcp_app;
use rist::packet::rtcp_app::{RistApp, RttEchoRequest, RttEchoResponse};
use rist::packet::rtcp_nack::{
    BitmaskNack, NackEntries, NackListBuilder, NackPacket, RangeNack, NACK_FMT_GENERIC,
    NACK_FMT_RANGE,
};
use rist::packet::rtcp_rr::{ReceiverReport, ReportBlock};
use rist::packet::rtcp_sdes::Sdes;
use rist::packet::rtcp_sr::SenderReport;
use rist::packet::rtp::{RtpHeader, RtpPacket, RTP_HEADER_SIZE};
use rist::packet::rtp_ext::ExtendedSequenceNumber;
use rist::packet::SeqNo;

fn report_block() -> ReportBlock {
    ReportBlock {
        ssrc: 0x12345678,
        fraction_lost: 25,
        cumulative_lost: 100,
        extended_highest_seq: 50000,
        jitter: 300,
        last_sr: 0xABCDEF12,
        delay_since_last_sr: 65536,
    }
}

// --- RTP ---

#[test]
fn test_rtp_header_roundtrip() {
    let header = RtpHeader::new_ts(0x12345678, 42, 1000);
    let bytes = header.serialize();
    let (parsed, size) = RtpHeader::parse(&bytes).unwrap();
    assert_eq!(size, RTP_HEADER_SIZE);
    assert_eq!(parsed, header);
}

#[test]
fn test_rtp_packet_roundtrip() {
    let pkt = RtpPacket {
        header: RtpHeader::new_ts(0xAABBCCDD, 100, 90000),
        payload: Bytes::from_static(&[0x47, 0x00, 0x00, 0x10]),
    };
    let bytes = pkt.serialize();
    let parsed = RtpPacket::parse(&bytes).unwrap();
    assert_eq!(parsed.header, pkt.header);
    assert_eq!(parsed.payload, pkt.payload);
}

#[test]
fn test_invalid_version() {
    let mut buf = [0u8; 12];
    buf[0] = 0b11_0_0_0000; // version 3
    assert!(matches!(
        RtpHeader::parse(&buf),
        Err(RistError::InvalidRtpVersion(3))
    ));
}

#[test]
fn test_too_short() {
    let buf = [0u8; 4];
    assert!(matches!(
        RtpHeader::parse(&buf),
        Err(RistError::PacketTooShort { .. })
    ));
}

#[test]
fn test_marker_and_payload_type() {
    let header = RtpHeader {
        version: 2,
        padding: false,
        extension: false,
        csrc_count: 0,
        marker: true,
        payload_type: 96,
        sequence_number: 0,
        timestamp: 0,
        ssrc: 0,
    };
    let bytes = header.serialize();
    let (parsed, _) = RtpHeader::parse(&bytes).unwrap();
    assert!(parsed.marker);
    assert_eq!(parsed.payload_type, 96);
}

#[test]
fn rtp_header_bytes_are_big_endian() {
    let header = RtpHeader {
        version: 2,
        padding: true,
        extension: true,
        csrc_count: 3,
        marker: true,
        payload_type: 33,
        sequence_number: 0x0102,
        timestamp: 0x03040506,
        ssrc: 0x0708090A,
    };
    assert_eq!(
        header.serialize().as_ref(),
        &[0xB3, 0xA1, 1, 2, 3, 4, 5, 6, 7, 8, 9, 10]
    );
}

#[test]
fn rtp_csrc_list_is_skipped_or_reported_missing() {
    let header = RtpHeader {
        csrc_count: 2,
        ..RtpHeader::new_ts(7, 1, 2)
    };
    let mut buf = header.serialize().to_vec();
    assert!(matches!(
        RtpHeader::parse(&buf),
        Err(RistError::PacketTooShort {
            expected: 20,
            actual: 12
        })
    ));
    buf.extend_from_slice(&[0; 8]);
    buf.push(0x47);
    let (parsed, size) = RtpHeader::parse(&buf).unwrap();
    assert_eq!(size, 20);
    assert_eq!(parsed, header);
    assert_eq!(RtpPacket::parse(&buf).unwrap().payload.as_ref(), &[0x47]);
}

#[test]
fn rtp_extension_header_is_skipped() {
    let header = RtpHeader {
        extension: true,
        ..RtpHeader::new_ts(7, 1, 2)
    };
    let mut buf = header.serialize().to_vec();
    buf.extend_from_slice(&[0xBE, 0xDE]);
    assert!(matches!(
        RtpPacket::parse(&buf),
        Err(RistError::PacketTooShort {
            expected: 16,
            actual: 14
        })
    ));
    buf.extend_from_slice(&[0, 1]);
    assert!(matches!(
        RtpPacket::parse(&buf),
        Err(RistError::PacketTooShort {
            expected: 20,
            actual: 16
        })
    ));
    buf.extend_from_slice(&[1, 2, 3, 4, 0x47, 0x11]);
    assert_eq!(
        RtpPacket::parse(&buf).unwrap().payload.as_ref(),
        &[0x47, 0x11]
    );
}

#[test]
fn rtp_packet_clone_is_equal() {
    let pkt = RtpPacket {
        header: RtpHeader::new_ts(1, 2, 3),
        payload: Bytes::from_static(b"abc"),
    };
    let copy = pkt.clone();
    assert_eq!(copy.header, pkt.header);
    assert_eq!(copy.payload, pkt.payload);
}

#[test]
fn extended_sequence_number_joins_both_halves() {
    let ext = ExtendedSequenceNumber { seq_hi: 0x0102 };
    assert_eq!(ext.full_seq(0xA0B0), 0x0102_A0B0);
}

// --- Sender report ---

#[test]
fn test_sr_roundtrip() {
    let sr = SenderReport {
        ssrc: 0x12345678,
        ntp_msw: 3_800_000_000,
        ntp_lsw: 0x80000000,
        rtp_timestamp: 90000,
        sender_packet_count: 1000,
        sender_octet_count: 1_316_000,
    };
    let bytes = sr.serialize();
    assert_eq!(bytes.len(), SenderReport::SIZE);

    // Skip common header (4 bytes)
    let parsed = SenderReport::parse(&bytes[4..]).unwrap();
    assert_eq!(parsed, sr);
}

#[test]
fn test_compact_ntp() {
    let sr = SenderReport {
        ssrc: 0,
        ntp_msw: 0x0000ABCD,
        ntp_lsw: 0xEF120000,
        rtp_timestamp: 0,
        sender_packet_count: 0,
        sender_octet_count: 0,
    };
    assert_eq!(sr.compact_ntp(), 0xABCDEF12);
}

#[test]
fn short_sender_report_is_rejected() {
    assert!(matches!(
        SenderReport::parse(&[0; 23]),
        Err(RistError::PacketTooShort {
            expected: 24,
            actual: 23
        })
    ));
}

// --- Receiver report ---

#[test]
fn test_rr_with_report_roundtrip() {
    let rr = ReceiverReport {
        ssrc: 0xAABBCCDD,
        reports: vec![report_block()],
    };
    let bytes = rr.serialize();
    // length field should be 7 (1 + 6)
    assert_eq!(u16::from_be_bytes([bytes[2], bytes[3]]), 7);

    let rc = bytes[0] & 0x1F;
    let parsed = ReceiverReport::parse(&bytes[4..], rc).unwrap();
    assert_eq!(parsed, rr);
}

#[test]
fn test_empty_rr() {
    let rr = ReceiverReport::empty(0xDEADBEEF);
    let bytes = rr.serialize();
    // length field should be 1
    assert_eq!(u16::from_be_bytes([bytes[2], bytes[3]]), 1);
    assert_eq!(bytes.len(), 8);
}

#[test]
fn test_negative_cumulative_lost() {
    let block = ReportBlock {
        ssrc: 1,
        fraction_lost: 0,
        cumulative_lost: -5, // Can be negative if packets duplicated
        extended_highest_seq: 100,
        jitter: 0,
        last_sr: 0,
        delay_since_last_sr: 0,
    };
    let mut buf = BytesMut::new();
    block.serialize(&mut buf);
    let parsed = ReportBlock::parse(&buf).unwrap();
    assert_eq!(parsed.cumulative_lost, -5);
}

#[test]
fn cumulative_loss_keeps_its_24_bits() {
    for lost in [-8_388_608, -1, 0, 1, 8_388_607] {
        let block = ReportBlock {
            cumulative_lost: lost,
            fraction_lost: 255,
            ..report_block()
        };
        let mut buf = BytesMut::new();
        block.serialize(&mut buf);
        assert_eq!(buf.len(), 24);
        assert_eq!(ReportBlock::parse(&buf).unwrap(), block);
    }
}

#[test]
fn receiver_report_names_the_block_it_misses() {
    assert!(matches!(
        ReceiverReport::parse(&[0; 3], 0),
        Err(RistError::PacketTooShort {
            expected: 4,
            actual: 3
        })
    ));
    assert!(matches!(
        ReceiverReport::parse(&[0; 4 + 24 + 5], 2),
        Err(RistError::PacketTooShort {
            expected: 24,
            actual: 5
        })
    ));
    let two = ReceiverReport {
        ssrc: 9,
        reports: vec![report_block(), report_block()],
    };
    let bytes = two.serialize();
    assert_eq!(bytes[0], 0x82);
    assert_eq!(ReceiverReport::parse(&bytes[4..], 2).unwrap(), two.clone());
}

// --- SDES ---

#[test]
fn test_sdes_roundtrip() {
    let sdes = Sdes {
        ssrc: 0x12345678,
        cname: "192.168.1.100".to_string(),
    };
    let bytes = sdes.serialize();
    // Verify 32-bit alignment
    assert_eq!(bytes.len() % 4, 0);

    let parsed = Sdes::parse(&bytes[4..]).unwrap();
    assert_eq!(parsed, sdes);
}

#[test]
fn test_sdes_short_cname() {
    let sdes = Sdes {
        ssrc: 1,
        cname: "a".to_string(),
    };
    let bytes = sdes.serialize();
    assert_eq!(bytes.len() % 4, 0);
    let parsed = Sdes::parse(&bytes[4..]).unwrap();
    assert_eq!(parsed, sdes);
}

#[test]
fn test_sdes_alignment() {
    // Test various CNAME lengths to ensure proper padding
    for len in 0..20 {
        let cname: String = (0..len).map(|_| 'x').collect();
        let sdes = Sdes { ssrc: 1, cname };
        let bytes = sdes.serialize();
        assert_eq!(bytes.len() % 4, 0, "Misaligned for CNAME length {len}");
        assert_eq!(bytes[bytes.len() - 1], 0);
    }
}

#[test]
fn sdes_rejects_what_is_no_cname() {
    assert!(matches!(
        Sdes::parse(&[0; 5]),
        Err(RistError::PacketTooShort {
            expected: 6,
            actual: 5
        })
    ));
    match Sdes::parse(&[0, 0, 0, 1, 207, 0]) {
        Err(RistError::Other(text)) => {
            assert_eq!(text, "expected SDES CNAME (type 1), got type 207");
        }
        other => panic!("expected an error, got {other:?}"),
    }
    assert!(matches!(
        Sdes::parse(&[0, 0, 0, 1, 1, 3, b'a', b'b']),
        Err(RistError::PacketTooShort {
            expected: 9,
            actual: 8
        })
    ));
}

#[test]
fn sdes_replaces_invalid_text() {
    let parsed = Sdes::parse(&[0, 0, 0, 1, 1, 3, b'a', 0xFF, b'b']).unwrap();
    assert_eq!(parsed.cname, "a\u{FFFD}b");
    let parsed = Sdes::parse(&[0, 0, 0, 1, 1, 3, b'x', 0xC3, 0xA9]).unwrap();
    assert_eq!(parsed.clone().cname, "x\u{E9}");
}

// --- NACK ---

#[test]
fn test_bitmask_nack_roundtrip() {
    let pkt = NackPacket {
        sender_ssrc: 0xAAAA,
        media_ssrc: 0xBBBB,
        entries: NackEntries::Bitmask(vec![
            BitmaskNack {
                pid: 100,
                blp: 0b0000_0000_0000_0101,
            },
            BitmaskNack { pid: 200, blp: 0 },
        ]),
    };
    let bytes = pkt.serialize();
    let payload_len = bytes.len() - 4;
    let parsed = NackPacket::parse(&bytes[4..], NACK_FMT_GENERIC, payload_len).unwrap();
    assert_eq!(parsed, pkt);
}

#[test]
fn test_range_nack_roundtrip() {
    let pkt = NackPacket {
        sender_ssrc: 1,
        media_ssrc: 2,
        entries: NackEntries::Range(vec![
            RangeNack {
                start: 500,
                extra: 9,
            },
            RangeNack {
                start: 520,
                extra: 0,
            },
        ]),
    };
    let bytes = pkt.serialize();
    let payload_len = bytes.len() - 4;
    let parsed = NackPacket::parse(&bytes[4..], NACK_FMT_RANGE, payload_len).unwrap();
    assert_eq!(parsed, pkt);
}

#[test]
fn test_bitmask_nack_lost_seqs() {
    let nack = BitmaskNack {
        pid: 100,
        blp: 0b0000_0000_0000_0101,
    };
    let seqs: Vec<u16> = nack.lost_seqs();
    assert_eq!(seqs, vec![100, 101, 103]);
}

#[test]
fn test_range_nack_lost_seqs() {
    let nack = RangeNack {
        start: 500,
        extra: 4,
    };
    let seqs: Vec<u16> = nack.lost_seqs();
    assert_eq!(seqs, vec![500, 501, 502, 503, 504]);
}

#[test]
fn test_nack_builder_bitmask() {
    let builder = NackListBuilder::new(1, 2);
    let pkt = builder.build_bitmask(&[100, 101, 103, 200]);
    match &pkt.entries {
        NackEntries::Bitmask(nacks) => {
            assert_eq!(nacks.len(), 2);
            assert_eq!(nacks[0].pid, 100);
            assert_eq!(nacks[0].blp, 0b0000_0000_0000_0101);
            assert_eq!(nacks[1].pid, 200);
            assert_eq!(nacks[1].blp, 0);
        }
        _ => panic!("expected bitmask"),
    }
}

#[test]
fn test_nack_builder_range() {
    let builder = NackListBuilder::new(1, 2);
    let pkt = builder.build_range(&[100, 101, 102, 200, 201]);
    match &pkt.entries {
        NackEntries::Range(nacks) => {
            assert_eq!(nacks.len(), 2);
            assert_eq!(
                nacks[0],
                RangeNack {
                    start: 100,
                    extra: 2
                }
            );
            assert_eq!(
                nacks[1],
                RangeNack {
                    start: 200,
                    extra: 1
                }
            );
        }
        _ => panic!("expected range"),
    }
}

#[test]
fn built_nacks_name_exactly_the_lost_packets() {
    let lost: Vec<u16> = vec![65530, 65531, 65535, 0, 10, 11, 5000];
    let builder = NackListBuilder::new(7, 8);
    let bitmask = builder.build_bitmask(&lost);
    assert_eq!(bitmask.sender_ssrc, 7);
    assert_eq!(bitmask.media_ssrc, 8);
    let mut named: Vec<u16> = Vec::new();
    if let NackEntries::Bitmask(entries) = &bitmask.entries {
        for e in entries {
            named.extend(e.lost_seqs());
        }
    }
    assert_eq!(named, lost);

    let mut named: Vec<u16> = Vec::new();
    if let NackEntries::Range(entries) = &builder.build_range(&lost).entries {
        for e in entries {
            named.extend(e.lost_seqs());
        }
    }
    assert_eq!(named, lost);
}

#[test]
fn built_nacks_keep_the_order_of_the_list() {
    let builder = NackListBuilder::new(1, 2);
    let lost = [3u16, 4, 5, 21, 22, 500, 501, 65_535];
    let nack = builder.build_range(&lost);
    match &nack.entries {
        NackEntries::Range(v) => {
            let listed: Vec<u16> = v.iter().flat_map(|e| e.lost_seqs()).collect();
            assert_eq!(listed, lost);
        }
        _ => panic!("expected ranges"),
    }
    match &builder.build_bitmask(&lost).entries {
        NackEntries::Bitmask(v) => {
            let listed: Vec<u16> = v.iter().flat_map(|e| e.lost_seqs()).collect();
            assert_eq!(listed, lost);
        }
        _ => panic!("expected bitmasks"),
    }
    // A range keeps the order of a list that is not sorted, too.
    match &builder.build_range(&[9, 65_535, 0, 1, 9]).entries {
        NackEntries::Range(v) => {
            let listed: Vec<u16> = v.iter().flat_map(|e| e.lost_seqs()).collect();
            assert_eq!(listed, [9, 65_535, 0, 1, 9]);
        }
        _ => panic!("expected ranges"),
    }
}

#[test]
fn built_nacks_have_no_entry_to_spare() {
    let builder = NackListBuilder::new(1, 2);
    // 0 reaches to 16; 17 starts the next entry, which reaches to 33.
    match &builder.build_bitmask(&[0, 1, 16, 17, 33, 34]).entries {
        NackEntries::Bitmask(v) => {
            let pids: Vec<u16> = v.iter().map(|e| e.pid).collect();
            assert_eq!(pids, [0, 17, 34]);
        }
        _ => panic!("expected bitmasks"),
    }
    match &builder.build_range(&[0, 1, 3, 4, 5, 9]).entries {
        NackEntries::Range(v) => {
            let runs: Vec<(u16, u16)> = v.iter().map(|e| (e.start, e.extra)).collect();
            assert_eq!(runs, [(0, 1), (3, 2), (9, 0)]);
        }
        _ => panic!("expected ranges"),
    }
}

#[test]
fn nack_with_unknown_format_or_no_header_is_rejected() {
    assert!(matches!(
        NackPacket::parse(&[0; 7], NACK_FMT_GENERIC, 7),
        Err(RistError::PacketTooShort {
            expected: 8,
            actual: 7
        })
    ));
    assert!(matches!(
        NackPacket::parse(&[0; 12], 4, 12),
        Err(RistError::InvalidNackFormat(4))
    ));
    let whole = NackPacket::parse(&[0, 0, 0, 1, 0, 0, 0, 2, 0, 3, 0, 4, 9, 9], 1, 14).unwrap();
    assert_eq!(
        whole.clone().entries,
        NackEntries::Bitmask(vec![BitmaskNack { pid: 3, blp: 4 }])
    );
}

// --- APP ---

#[test]
fn test_rtt_echo_request_roundtrip() {
    let req = RistApp::RttEchoRequest(RttEchoRequest {
        ssrc: 0x12345678,
        timestamp_msw: 1000,
        timestamp_lsw: 2000,
    });
    let bytes = req.serialize();
    assert_eq!(bytes.len(), 20);

    let subtype = bytes[0] & 0x1F;
    let parsed = RistApp::parse(&bytes[4..], subtype).unwrap();
    assert_eq!(parsed, req);
}

#[test]
fn test_rtt_echo_response_roundtrip() {
    let resp = RistApp::RttEchoResponse(RttEchoResponse {
        ssrc: 0xAABBCCDD,
        timestamp_msw: 3000,
        timestamp_lsw: 4000,
        processing_delay_us: 150,
    });
    let bytes = resp.serialize();
    assert_eq!(bytes.len(), 24);

    let subtype = bytes[0] & 0x1F;
    let parsed = RistApp::parse(&bytes[4..], subtype).unwrap();
    assert_eq!(parsed, resp);
}

#[test]
fn app_range_nack_roundtrip() {
    let nack = RistApp::RangeNack(rtcp_app::RangeNack {
        media_ssrc: 0x11223344,
        entries: vec![(5, 0), (65535, 65535)],
    });
    let bytes = nack.serialize();
    assert_eq!(
        &bytes[..],
        &[
            0x80, 204, 0, 4, 0x11, 0x22, 0x33, 0x44, b'R', b'I', b'S', b'T', 0, 5, 0, 0, 255, 255,
            255, 255
        ]
    );
    assert_eq!(RistApp::parse(&bytes[4..], 0).unwrap(), nack.clone());
}

#[test]
fn foreign_and_unknown_app_packets_are_kept() {
    let foreign = [0, 0, 0, 1, b'Q', b'T', b'S', b'S', 1, 2, 3, 4];
    let parsed = RistApp::parse(&foreign, 0).unwrap();
    assert_eq!(
        parsed,
        RistApp::Unknown {
            subtype: 0,
            data: foreign.to_vec()
        }
    );
    let later = [0, 0, 0, 1, b'R', b'I', b'S', b'T'];
    let parsed = RistApp::parse(&later, 9).unwrap();
    assert_eq!(
        parsed,
        RistApp::Unknown {
            subtype: 9,
            data: later.to_vec()
        }
    );
    let bytes = parsed.serialize();
    assert_eq!(&bytes[..4], &[0x89, 204, 0, 2]);
    assert_eq!(&bytes[4..], &later);
}

#[test]
fn app_packet_of_any_length_reads_back() {
    let odd = RistApp::Unknown {
        subtype: 17,
        data: vec![0, 0, 0, 1, b'R', b'I', b'S', b'T', 5, 6, 7],
    };
    let bytes = odd.serialize();
    assert_eq!(&bytes[..4], &[0x91, 204, 0, 2]);
    assert_eq!(RistApp::parse(&bytes[4..], 17).unwrap(), odd);
}

#[test]
fn short_app_packets_are_rejected() {
    assert!(matches!(
        RistApp::parse(&[0; 7], 2),
        Err(RistError::PacketTooShort {
            expected: 8,
            actual: 7
        })
    ));
    let named = [0, 0, 0, 1, b'R', b'I', b'S', b'T', 0, 0, 0, 0];
    assert!(matches!(
        RistApp::parse(&named, 2),
        Err(RistError::PacketTooShort {
            expected: 16,
            actual: 12
        })
    ));
    assert!(matches!(
        RistApp::parse(&named, 3),
        Err(RistError::PacketTooShort {
            expected: 20,
            actual: 12
        })
    ));
}

// --- Compound ---

#[test]
fn test_compound_sr_sdes() {
    // Build a compound packet: SR + SDES (sender's compound per TR-06-1)
    let compound = RtcpCompound {
        packets: vec![
            RtcpPacket::SenderReport(SenderReport {
                ssrc: 0x11111111,
                ntp_msw: 1000,
                ntp_lsw: 2000,
                rtp_timestamp: 90000,
                sender_packet_count: 500,
                sender_octet_count: 658000,
            }),
            RtcpPacket::Sdes(Sdes {
                ssrc: 0x11111111,
                cname: "10.0.0.1".to_string(),
            }),
        ],
    };

    let bytes = compound.serialize();
    let parsed = RtcpCompound::parse(&bytes).unwrap();
    assert_eq!(parsed.packets.len(), 2);

    match &parsed.packets[0] {
        RtcpPacket::SenderReport(sr) => assert_eq!(sr.ssrc, 0x11111111),
        _ => panic!("expected SR"),
    }
    match &parsed.packets[1] {
        RtcpPacket::Sdes(sdes) => assert_eq!(sdes.cname, "10.0.0.1"),
        _ => panic!("expected SDES"),
    }
}

#[test]
fn test_compound_rr_sdes_nack() {
    // Build a receiver's compound packet: RR + SDES + NACK
    let compound = RtcpCompound {
        packets: vec![
            RtcpPacket::ReceiverReport(ReceiverReport {
                ssrc: 0x22222222,
                reports: vec![ReportBlock {
                    ssrc: 0x11111111,
                    fraction_lost: 10,
                    cumulative_lost: 5,
                    extended_highest_seq: 1000,
                    jitter: 100,
                    last_sr: 0,
                    delay_since_last_sr: 0,
                }],
            }),
            RtcpPacket::Sdes(Sdes {
                ssrc: 0x22222222,
                cname: "10.0.0.2".to_string(),
            }),
            RtcpPacket::Nack(NackPacket {
                sender_ssrc: 0x22222222,
                media_ssrc: 0x11111111,
                entries: NackEntries::Bitmask(vec![BitmaskNack { pid: 990, blp: 0 }]),
            }),
        ],
    };

    let bytes = compound.serialize();
    let parsed = RtcpCompound::parse(&bytes).unwrap();
    assert_eq!(parsed.packets.len(), 3);
}

#[test]
fn common_header_fields() {
    let header = RtcpCommonHeader::parse(&[0xA5, 201, 1, 2]).unwrap();
    assert_eq!(
        header,
        RtcpCommonHeader {
            version: 2,
            padding: true,
            count: 5,
            packet_type: 201,
            length: 0x0102
        }
    );
    assert_eq!(header.packet_size(), (0x0102 + 1) * 4);
    assert!(matches!(
        RtcpCommonHeader::parse(&[0x80, 1, 2]),
        Err(RistError::PacketTooShort {
            expected: 4,
            actual: 3
        })
    ));
    assert!(matches!(
        RtcpCommonHeader::parse(&[0x40, 201, 0, 0]),
        Err(RistError::InvalidRtpVersion(1))
    ));
}

#[test]
fn broken_sub_packet_does_not_hide_the_nack_after_it() {
    let nack = NackPacket {
        sender_ssrc: 1,
        media_ssrc: 2,
        entries: NackEntries::Range(vec![RangeNack { start: 3, extra: 4 }]),
    };
    // A sender report that is too short, then an unknown type, then the NACK,
    // then a packet that is cut off.
    let mut datagram = vec![0x80, 200, 0, 1, 1, 2, 3, 4, 0x80, 77, 0, 0];
    datagram.extend_from_slice(&nack.serialize());
    datagram.extend_from_slice(&[0x80, 201, 0, 1, 0, 0]);
    let parsed = RtcpCompound::parse(&datagram).unwrap();
    assert_eq!(parsed.packets.len(), 3);
    match &parsed.packets[0] {
        RtcpPacket::Unknown { packet_type, data } => {
            assert_eq!(*packet_type, 200);
            assert_eq!(data, &vec![1, 2, 3, 4]);
        }
        _ => panic!("expected an unknown packet"),
    }
    assert!(matches!(
        parsed.packets[1],
        RtcpPacket::Unknown {
            packet_type: 77,
            ..
        }
    ));
    match parsed.packets[2].clone() {
        RtcpPacket::Nack(n) => assert_eq!(n, nack),
        _ => panic!("expected the NACK"),
    }
    // Unknown packets are not written again.
    assert_eq!(&parsed.serialize()[..], &nack.serialize()[..]);
    // A wrong version rejects the datagram.
    assert!(matches!(
        RtcpCompound::parse(&[0x00, 201, 0, 0]),
        Err(RistError::InvalidRtpVersion(0))
    ));
    assert!(RtcpCompound::parse(&[]).unwrap().packets.is_empty());
}

// --- Sequence numbers ---

#[test]
fn test_basic_ordering() {
    assert!(SeqNo(0).precedes(SeqNo(1)));
    assert!(SeqNo(100).precedes(SeqNo(200)));
    assert!(!SeqNo(200).precedes(SeqNo(100)));
}

#[test]
fn seq_test_wraparound() {
    // 65535 should precede 0 (0 is "after" 65535)
    assert!(SeqNo(65535).precedes(SeqNo(0)));
    assert!(SeqNo(65534).precedes(SeqNo(0)));
    // But 0 should not precede 65535
    assert!(!SeqNo(0).precedes(SeqNo(65535)));
}

#[test]
fn test_diff() {
    assert_eq!(SeqNo(0).diff(SeqNo(1)), 1);
    assert_eq!(SeqNo(1).diff(SeqNo(0)), -1);
    assert_eq!(SeqNo(65535).diff(SeqNo(0)), 1);
    assert_eq!(SeqNo(0).diff(SeqNo(65535)), -1);
}

#[test]
fn test_next() {
    assert_eq!(SeqNo(0).next(), SeqNo(1));
    assert_eq!(SeqNo(65535).next(), SeqNo(0));
}

#[test]
fn test_add() {
    assert_eq!(SeqNo(65530).add(10), SeqNo(4));
}

#[test]
fn test_half_space_boundary() {
    // At exactly half-space (32768), the direction is ambiguous.
    // By convention, diff >= 32768 is treated as "behind".
    assert_eq!(SeqNo(0).diff(SeqNo(32768)), -32768);
    assert_eq!(SeqNo(0).diff(SeqNo(32767)), 32767);
}

#[test]
fn sequence_order_survives_the_wrap() {
    assert!(SeqNo(65535) < SeqNo(0));
    assert!(SeqNo(0) > SeqNo(65535));
    assert!(SeqNo(7) <= SeqNo(7));
    assert_eq!(u16::from(SeqNo::from(9)), 9);
}
