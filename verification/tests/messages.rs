//! What every kind of failure says.

use vip::axi3::{Axi3Fault, Axi3Master, Axi3Ram};
use vip::axi4::{Axi4Master, MasterConfig, MasterFault, RamConfig};
use vip::axi4_lite::{Axi4LiteFault, LiteMasterFault};
use vip::axi4_stream::{Axi4StreamFault, NoBeat, StreamMismatch};
use vip::common::channel::Unstable;
use vip::common::monitor::{Chan, LineFault, Wire};
use vip::common::setup::BuildError;
use vip::common::words::{ArgError, ArgFault};

#[test]
fn handshake_faults_name_the_line() {
    let say = |f: LineFault| f.message("AXI3");
    assert_eq!(
        say(LineFault::HighInReset(Wire::Valid(Chan::Aw))),
        "AXI3: AWVALID must be low during reset"
    );
    assert_eq!(
        say(LineFault::Unknown(Wire::Ready(Chan::R))),
        "AXI3: RREADY is X/Z"
    );
    assert_eq!(
        say(LineFault::UnknownPayload(Chan::W)),
        "AXI3 W: payload is X/Z while VALID"
    );
    assert_eq!(
        say(LineFault::Unsteady(Chan::B, Unstable::Deasserted)),
        "AXI3 B: VALID deasserted before READY"
    );
    assert_eq!(
        say(LineFault::Unsteady(Chan::Ar, Unstable::Changed)),
        "AXI3 AR: payload changed while VALID was stalled"
    );
    assert_eq!(
        say(LineFault::Timeout(Chan::Aw, 1000)),
        "AXI3 AW: no READY within 1000 cycles (timeout)"
    );
}

#[test]
fn axi3_faults_say_what_is_wrong() {
    for (f, what) in [
        (
            Axi3Fault::SizeExceedsBus(Chan::Aw, 8),
            "AXI3 AW: SIZE 8 exceeds bus width",
        ),
        (
            Axi3Fault::ReservedLock(Chan::Ar),
            "AXI3 AR: reserved LOCK type 0b11",
        ),
        (
            Axi3Fault::DataWithoutWrite(10),
            "AXI3 W: WID 10 has no outstanding write",
        ),
        (
            Axi3Fault::WriteLength {
                id: 1,
                count: 2,
                expected: 16,
            },
            "AXI3 W id 1: WLAST after 2 beats, expected 16",
        ),
        (
            Axi3Fault::DataWithoutRead(0),
            "AXI3 R: RID 0 has no outstanding read",
        ),
        (
            Axi3Fault::ExokayWrite(7),
            "AXI3 B: EXOKAY on a non-exclusive write (id 7)",
        ),
        (
            Axi3Fault::WrapUnaligned(Chan::Ar, 0xffff_ffff_ffff_ffff),
            "AXI3 AR: WRAP address 0xffffffffffffffff not size-aligned",
        ),
    ] {
        assert_eq!(f.message(), what);
    }
}

#[test]
fn lite_faults_say_what_is_wrong() {
    for (f, what) in [
        (
            Axi4LiteFault::Exokay(Chan::B),
            "AXI4-Lite B: EXOKAY is not a legal AXI4-Lite response",
        ),
        (
            Axi4LiteFault::Unaligned(Chan::Aw, 0x1e),
            "AXI4-Lite AW: unaligned address 0x1e",
        ),
        (
            Axi4LiteFault::EarlyWriteResponse,
            "AXI4-Lite B: write response with no outstanding write",
        ),
        (
            Axi4LiteFault::EarlyReadResponse,
            "AXI4-Lite R: read response with no outstanding read",
        ),
        (
            Axi4LiteFault::Deadlock(9),
            "AXI4-Lite: bus idle for 9 cycles with work outstanding (deadlock)",
        ),
    ] {
        assert_eq!(f.message(), what);
    }
}

#[test]
fn lite_master_faults_say_what_is_wrong() {
    for (f, what) in [
        (
            LiteMasterFault::WriteResponse { addr: 0x40, code: 3 },
            "write @0x40: response 3 (expected OKAY)",
        ),
        (
            LiteMasterFault::ResponseWithoutWrite,
            "AXI4-Lite B: response with no outstanding write",
        ),
        (
            LiteMasterFault::ReadMismatch {
                addr: 0xa,
                want: vec![0xab, 0],
                got: vec![1, 0x10],
            },
            "read @0xa: expected [ab, 0], got [1, 10]",
        ),
        (
            LiteMasterFault::ResponseWithoutRead,
            "AXI4-Lite R: response with no outstanding read",
        ),
    ] {
        assert_eq!(f.message(), what);
    }
}

#[test]
fn burst_master_faults_name_the_protocol_and_the_id() {
    for (f, what) in [
        (
            MasterFault::WriteResponse { id: 4, code: 2 },
            "AXI4 write id 4: response 2",
        ),
        (MasterFault::UnexpectedB(5), "AXI4 B: unexpected BID 5"),
        (MasterFault::UnexpectedR(6), "AXI4 R: unexpected RID 6"),
        (
            MasterFault::LastMisaligned(7),
            "AXI4 read id 7: RLAST misaligned",
        ),
        (
            MasterFault::DataMismatch(8),
            "AXI4 read id 8: data mismatch",
        ),
    ] {
        assert_eq!(f.message("AXI4"), what);
    }
}

#[test]
fn stream_faults_say_what_is_wrong() {
    for (f, what) in [
        (
            Axi4StreamFault::HighInReset,
            "AXI4-Stream: TVALID must be low during reset",
        ),
        (
            Axi4StreamFault::UnknownPayload,
            "AXI4-Stream: payload is X/Z while TVALID",
        ),
        (
            Axi4StreamFault::UnknownLine,
            "AXI4-Stream: TVALID/TREADY is X/Z",
        ),
        (
            Axi4StreamFault::Stability(Unstable::Changed),
            "AXI4-Stream: payload changed while VALID was stalled",
        ),
    ] {
        assert_eq!(f.message(), what);
    }
    let m = StreamMismatch {
        beat: 12,
        want: vec![0xff],
        got: vec![],
    };
    assert_eq!(m.message(), "stream beat 12: expected [ff], got []");
    assert_eq!(NoBeat.message(), "no beat received");
}

#[test]
fn refused_arguments_say_why() {
    let say = |fault: ArgFault| {
        ArgError {
            fault,
            what: "write data",
            width: 512,
        }
        .message()
    };
    assert_eq!(say(ArgFault::Unknown), "write data contains X/Z bits");
    assert_eq!(say(ArgFault::NotBits), "write data is not a bit value");
    assert_eq!(
        say(ArgFault::DoesNotFit),
        "write data does not fit the 512-bit bus"
    );
}

#[test]
fn too_many_outstanding_for_the_ids_is_refused() {
    let config = MasterConfig {
        width: 32,
        rwidth: 32,
        id_width: 2,
        stall: None,
        max_outstanding: Some(5),
    };
    let e = Axi4Master::on_build(32, 32, config, 0).err().unwrap();
    assert_eq!(
        e.message(),
        "axi4_master: MAX_OUTSTANDING (5) exceeds the 2-bit ID space (4)"
    );
    let e = Axi3Master::on_build(32, 32, config, 0).err().unwrap();
    assert_eq!(
        e.message(),
        "axi3_master: MAX_OUTSTANDING (5) exceeds the 2-bit ID space (4)"
    );
    let config = MasterConfig {
        max_outstanding: Some(4),
        ..config
    };
    assert!(Axi4Master::on_build(64, 64, config, 0).is_ok());
}

#[test]
fn the_port_that_is_too_wide_is_named() {
    let config = RamConfig {
        width: 32,
        stall: None,
        max_outstanding: None,
        size: None,
    };
    let e = Axi3Ram::on_build(32, 65, config, 0).err().unwrap();
    assert_eq!(
        e,
        BuildError::AddressTooWide {
            component: "axi3_ram",
            port: "araddr",
            width: 65
        }
    );
    assert_eq!(
        e.message(),
        "axi3_ram: araddr width 65 exceeds the 64-bit address limit"
    );
}
