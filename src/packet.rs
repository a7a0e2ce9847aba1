//! Decoding of the sensor's UDP datagrams: a 36-byte little-endian header,
//! then LiDAR point records or IMU readings.
use vstd::prelude::*;
use crate::geometry::LaserPoint;

verus! {

pub const HEADER_SIZE: usize = 36;
pub const POINT_SIZE: usize = 14;
/// Bytes of the IMU payload: six 32-bit floats.
pub const IMU_PAYLOAD_SIZE: usize = 24;
pub const DATA_TYPE_IMU: u8 = 0;
pub const DATA_TYPE_LIDAR: u8 = 1;

/// Why a datagram was rejected.
#[derive(Clone, Copy, Debug, PartialEq, Eq, Structural)]
pub enum DecodeError {
    /// Shorter than its header, its `length` field, or its records.
    Truncated,
    /// A `data_type` this decoder does not know.
    UnsupportedType,
    /// `dot_num` records do not fill the payload.
    PayloadMismatch,
}

/// The fixed header shared by LiDAR and IMU datagrams.
#[derive(Clone, Copy, Debug, PartialEq, Eq, Structural)]
pub struct PacketHeader {
    pub version: u8,
    pub length: u16,
    pub time_interval: u16,
    pub dot_num: u16,
    pub udp_cnt: u16,
    pub frame_cnt: u8,
    pub data_type: u8,
    pub time_type: u8,
    pub reserved: u8,
    pub crc32: u32,
    pub timestamp: u64,
}

/// A decoded LiDAR datagram: its header and its non-zero points, in order.
#[derive(Debug)]
pub struct LaserData {
    pub header: PacketHeader,
    pub points: Vec<LaserPoint>,
}

/// A decoded IMU datagram. Each reading is the IEEE-754 bit pattern of a
/// 32-bit float: gyro in rad/s, acceleration in g.
#[derive(Clone, Copy, Debug, PartialEq, Eq, Structural)]
pub struct ImuData {
    pub header: PacketHeader,
    pub gyro_x: u32,
    pub gyro_y: u32,
    pub gyro_z: u32,
    pub acc_x: u32,
    pub acc_y: u32,
    pub acc_z: u32,
}

pub open spec fn le_u16(s: Seq<u8>, at: int) -> int {
    s[at] + 256 * s[at + 1]
}

pub open spec fn le_u32(s: Seq<u8>, at: int) -> int {
    le_u16(s, at) + 65536 * le_u16(s, at + 2)
}

pub open spec fn le_u64(s: Seq<u8>, at: int) -> int {
    le_u32(s, at) + 0x1_0000_0000 * le_u32(s, at + 4)
}

/// Two's complement reading of four little-endian bytes.
pub open spec fn le_i32(s: Seq<u8>, at: int) -> int {
    let u = le_u32(s, at);
    if u >= 0x8000_0000 { u - 0x1_0000_0000 } else { u }
}

/// The header at the start of `s` (which holds at least `HEADER_SIZE` bytes).
pub open spec fn header_of(s: Seq<u8>) -> PacketHeader {
    PacketHeader {
        version: s[0],
        length: le_u16(s, 1) as u16,
        time_interval: le_u16(s, 3) as u16,
        dot_num: le_u16(s, 5) as u16,
        udp_cnt: le_u16(s, 7) as u16,
        frame_cnt: s[9],
        data_type: s[10],
        time_type: s[11],
        reserved: s[12],
        crc32: le_u32(s, 13) as u32,
        timestamp: le_u64(s, 17) as u64,
    }
}

/// Record `k` of the LiDAR payload of `s`.
pub open spec fn record_of(s: Seq<u8>, k: int) -> LaserPoint {
    let at = HEADER_SIZE + k * POINT_SIZE;
    LaserPoint {
        x: le_i32(s, at) as i32,
        y: le_i32(s, at + 4) as i32,
        z: le_i32(s, at + 8) as i32,
        reflectivity: s[at + 12],
    }
}

/// The first `k` records of the payload, without the all-zero ones.
pub open spec fn records_of(s: Seq<u8>, k: int) -> Seq<LaserPoint>
    decreases k,
{
    if k <= 0 {
        Seq::empty()
    } else {
        let p = record_of(s, k - 1);
        if p.x == 0 && p.y == 0 && p.z == 0 {
            records_of(s, k - 1)
        } else {
            records_of(s, k - 1).push(p)
        }
    }
}

/// The error a LiDAR datagram gets, if any.
pub open spec fn lidar_error(s: Seq<u8>) -> Option<DecodeError> {
    if s.len() < HEADER_SIZE {
        Some(DecodeError::Truncated)
    } else if s[10] != DATA_TYPE_LIDAR {
        Some(DecodeError::UnsupportedType)
    } else if le_u16(s, 1) > s.len() || le_u16(s, 1) < HEADER_SIZE || (le_u16(s, 1) - HEADER_SIZE)
        % (POINT_SIZE as int) != 0 {
        Some(DecodeError::Truncated)
    } else if le_u16(s, 5) * POINT_SIZE != le_u16(s, 1) - HEADER_SIZE {
        Some(DecodeError::PayloadMismatch)
    } else {
        None
    }
}

/// The error an IMU datagram gets, if any.
pub open spec fn imu_error(s: Seq<u8>) -> Option<DecodeError> {
    if s.len() < HEADER_SIZE {
        Some(DecodeError::Truncated)
    } else if s[10] != DATA_TYPE_IMU {
        Some(DecodeError::UnsupportedType)
    } else if le_u16(s, 1) > s.len() || s.len() < HEADER_SIZE + IMU_PAYLOAD_SIZE {
        Some(DecodeError::Truncated)
    } else {
        None
    }
}

fn read_u16(data: &[u8], at: usize) -> (r: u16)
    requires
        at + 2 <= data@.len() <= usize::MAX,
    ensures
        r == le_u16(data@, at as int),
{
    data[at] as u16 + 256 * data[at + 1] as u16
}

fn read_u32(data: &[u8], at: usize) -> (r: u32)
    requires
        at + 4 <= data@.len() <= usize::MAX,
    ensures
        r == le_u32(data@, at as int),
{
    read_u16(data, at) as u32 + 65536 * read_u16(data, at + 2) as u32
}

fn read_u64(data: &[u8], at: usize) -> (r: u64)
    requires
        at + 8 <= data@.len() <= usize::MAX,
    ensures
        r == le_u64(data@, at as int),
{
    read_u32(data, at) as u64 + 0x1_0000_0000 * read_u32(data, at + 4) as u64
}

fn read_i32(data: &[u8], at: usize) -> (r: i32)
    requires
        at + 4 <= data@.len() <= usize::MAX,
    ensures
        r == le_i32(data@, at as int),
{
    let u = read_u32(data, at);
    if u >= 0x8000_0000 {
        (u as i64 - 0x1_0000_0000) as i32
    } else {
        u as i32
    }
}

/// Reads the header at the start of `data`.
pub fn parse_header(data: &[u8]) -> (r: PacketHeader)
    requires
        HEADER_SIZE <= data@.len() <= usize::MAX,
    ensures
        r == header_of(data@),
{
    PacketHeader {
        version: data[0],
        length: read_u16(data, 1),
        time_interval: read_u16(data, 3),
        dot_num: read_u16(data, 5),
        udp_cnt: read_u16(data, 7),
        frame_cnt: data[9],
        data_type: data[10],
        time_type: data[11],
        reserved: data[12],
        crc32: read_u32(data, 13),
        timestamp: read_u64(data, 17),
    }
}

/// Decodes a LiDAR datagram: its header, then `dot_num` records of 14 bytes
/// (x, y, z as i32 millimetres, reflectivity, tag); all-zero points are
/// dropped.
pub fn parse_laserpoint(data: &[u8]) -> (r: Result<LaserData, DecodeError>)
    ensures
        r is Err <==> lidar_error(data@) is Some,
        r is Err ==> Some(r->Err_0) == lidar_error(data@),
        r is Ok ==> r->Ok_0.header == header_of(data@) && r->Ok_0.points@ == records_of(
            data@,
            header_of(data@).dot_num as int,
        ),
{
    if data.len() < HEADER_SIZE {
        return Err(DecodeError::Truncated);
    }
    let header = parse_header(data);
    if header.data_type != DATA_TYPE_LIDAR {
        return Err(DecodeError::UnsupportedType);
    }
    let length = header.length as usize;
    if length > data.len() || length < HEADER_SIZE || (length - HEADER_SIZE) % POINT_SIZE != 0 {
        return Err(DecodeError::Truncated);
    }
    let dot_num = header.dot_num as usize;
    if dot_num * POINT_SIZE != length - HEADER_SIZE {
        return Err(DecodeError::PayloadMismatch);
    }
    let mut points: Vec<LaserPoint> = Vec::with_capacity(dot_num);
    let mut k: usize = 0;
    while k < dot_num
        invariant
            k <= dot_num,
            dot_num == header.dot_num,
            HEADER_SIZE + dot_num * POINT_SIZE <= data@.len() <= usize::MAX,
            points@ == records_of(data@, k as int),
        decreases dot_num - k,
    {
        let at = HEADER_SIZE + k * POINT_SIZE;
        let x = read_i32(data, at);
        let y = read_i32(data, at + 4);
        let z = read_i32(data, at + 8);
        let reflectivity = data[at + 12];
        if !(x == 0 && y == 0 && z == 0) {
            points.push(LaserPoint { x, y, z, reflectivity });
        }
        k = k + 1;
    }
    Ok(LaserData { header, points })
}

/// Decodes an IMU datagram: its header, then gyro x, y, z and acceleration
/// x, y, z as little-endian 32-bit floats (kept as bit patterns).
pub fn parse_imu(data: &[u8]) -> (r: Result<ImuData, DecodeError>)
    ensures
        r is Err <==> imu_error(data@) is Some,
        r is Err ==> Some(r->Err_0) == imu_error(data@),
        r is Ok ==> r->Ok_0 == (ImuData {
            header: header_of(data@),
            gyro_x: le_u32(data@, 36) as u32,
            gyro_y: le_u32(data@, 40) as u32,
            gyro_z: le_u32(data@, 44) as u32,
            acc_x: le_u32(data@, 48) as u32,
            acc_y: le_u32(data@, 52) as u32,
            acc_z: le_u32(data@, 56) as u32,
        }),
{
    if data.len() < HEADER_SIZE {
        return Err(DecodeError::Truncated);
    }
    let header = parse_header(data);
    if header.data_type != DATA_TYPE_IMU {
        return Err(DecodeError::UnsupportedType);
    }
    let length = header.length as usize;
    if length > data.len() || data.len() < HEADER_SIZE + IMU_PAYLOAD_SIZE {
        return Err(DecodeError::Truncated);
    }
    Ok(
        ImuData {
            header,
            gyro_x: read_u32(data, 36),
            gyro_y: read_u32(data, 40),
            gyro_z: read_u32(data, 44),
            acc_x: read_u32(data, 48),
            acc_y: read_u32(data, 52),
            acc_z: read_u32(data, 56),
        },
    )
}

/// One decoded datagram.
#[derive(Debug)]
pub enum Frame {
    Lidar(LaserData),
    Imu(ImuData),
}

/// Decodes a datagram of either family, chosen by its `data_type`.
pub fn decode_packet(data: &[u8]) -> (r: Result<Frame, DecodeError>)
    ensures
        data@.len() < HEADER_SIZE ==> r == Err::<Frame, DecodeError>(DecodeError::Truncated),
        data@.len() >= HEADER_SIZE && data@[10] != DATA_TYPE_LIDAR && data@[10] != DATA_TYPE_IMU
            ==> r == Err::<Frame, DecodeError>(DecodeError::UnsupportedType),
        data@.len() >= HEADER_SIZE && data@[10] == DATA_TYPE_LIDAR ==> match r {
            Ok(Frame::Lidar(d)) => lidar_error(data@) is None && d.header == header_of(data@)
                && d.points@ == records_of(data@, header_of(data@).dot_num as int),
            Ok(Frame::Imu(_)) => false,
            Err(e) => lidar_error(data@) == Some(e),
        },
        data@.len() >= HEADER_SIZE && data@[10] == DATA_TYPE_IMU ==> match r {
            Ok(Frame::Imu(d)) => imu_error(data@) is None && d == (ImuData {
                header: header_of(data@),
                gyro_x: le_u32(data@, 36) as u32,
                gyro_y: le_u32(data@, 40) as u32,
                gyro_z: le_u32(data@, 44) as u32,
                acc_x: le_u32(data@, 48) as u32,
                acc_y: le_u32(data@, 52) as u32,
                acc_z: le_u32(data@, 56) as u32,
            }),
            Ok(Frame::Lidar(_)) => false,
            Err(e) => imu_error(data@) == Some(e),
        },
{
    if data.len() < HEADER_SIZE {
        return Err(DecodeError::Truncated);
    }
    if data[10] == DATA_TYPE_LIDAR {
        match parse_laserpoint(data) {
            Ok(d) => Ok(Frame::Lidar(d)),
            Err(e) => Err(e),
        }
    } else if data[10] == DATA_TYPE_IMU {
        match parse_imu(data) {
            Ok(d) => Ok(Frame::Imu(d)),
            Err(e) => Err(e),
        }
    } else {
        Err(DecodeError::UnsupportedType)
    }
}

/// The point lies strictly inside the cube of half-edge `boundary`.
pub open spec fn inside_cube(p: LaserPoint, boundary: int) -> bool {
    -boundary < p.x < boundary && -boundary < p.y < boundary && -boundary < p.z < boundary
}

/// The points of `s` that lie strictly inside the cube, in order.
pub open spec fn clip(s: Seq<LaserPoint>, boundary: int) -> Seq<LaserPoint>
    decreases s.len(),
{
    if s.len() == 0 {
        s
    } else if inside_cube(s.last(), boundary) {
        clip(s.drop_last(), boundary).push(s.last())
    } else {
        clip(s.drop_last(), boundary)
    }
}

/// Whether a point lies strictly inside the cube `[-boundary, boundary]`.
pub fn env_sensor(point: &LaserPoint, boundary: i32) -> (r: bool)
    ensures
        r == inside_cube(*point, boundary as int),
{
    let b = boundary as i64;
    let x = point.x as i64;
    let y = point.y as i64;
    let z = point.z as i64;
    x > -b && x < b && y > -b && y < b && z > -b && z < b
}

/// One step of the integration window: decodes a LiDAR datagram and appends
/// its points that lie inside the cube of half-edge `boundary` to `points`.
/// A datagram that does not decode leaves `points` as it was.
pub fn accumulate_packet(points: &mut Vec<LaserPoint>, data: &[u8], boundary: i32) -> (r: Result<
    (),
    DecodeError,
>)
    ensures
        r is Err <==> lidar_error(data@) is Some,
        r is Err ==> Some(r->Err_0) == lidar_error(data@) && final(points)@ == old(points)@,
        r is Ok ==> final(points)@ == old(points)@ + clip(
            records_of(data@, header_of(data@).dot_num as int),
            boundary as int,
        ),
{
    let frame = parse_laserpoint(data);
    match frame {
        Err(e) => Err(e),
        Ok(d) => {
            let ghost start = points@;
            let mut i: usize = 0;
            while i < d.points.len()
                invariant
                    i <= d.points@.len(),
                    points@ == start + clip(d.points@.subrange(0, i as int), boundary as int),
                decreases d.points@.len() - i,
            {
                let p = d.points[i];
                proof {
                    let s = d.points@.subrange(0, i as int + 1);
                    assert(s.drop_last() =~= d.points@.subrange(0, i as int));
                    assert(s.last() == p);
                }
                if env_sensor(&p, boundary) {
                    points.push(p);
                    proof {
                        let c = clip(d.points@.subrange(0, i as int), boundary as int);
                        assert(start + c.push(p) =~= (start + c).push(p));
                    }
                }
                i = i + 1;
            }
            proof {
                assert(d.points@.subrange(0, d.points@.len() as int) =~= d.points@);
            }
            Ok(())
        },
    }
}

} // verus!
