use lidar_nav::packet::{
    accumulate_packet, decode_packet, env_sensor, parse_imu, parse_laserpoint, DecodeError, Frame,
};
use lidar_nav::geometry::LaserPoint;

fn header(data_type: u8, length: u16, dot_num: u16) -> Vec<u8> {
    let mut h = vec![0u8; 36];
    h[0] = 5;
    h[1..3].copy_from_slice(&length.to_le_bytes());
    h[3..5].copy_from_slice(&10u16.to_le_bytes());
    h[5..7].copy_from_slice(&dot_num.to_le_bytes());
    h[7..9].copy_from_slice(&513u16.to_le_bytes());
    h[9] = 3;
    h[10] = data_type;
    h[11] = 1;
    h[13..17].copy_from_slice(&0xdead_beefu32.to_le_bytes());
    h[17..25].copy_from_slice(&123_456_789_012u64.to_le_bytes());
    h
}

fn record(x: i32, y: i32, z: i32, r: u8) -> Vec<u8> {
    let mut v = Vec::new();
    v.extend_from_slice(&x.to_le_bytes());
    v.extend_from_slice(&y.to_le_bytes());
    v.extend_from_slice(&z.to_le_bytes());
    v.push(r);
    v.push(0);
    v
}

fn lidar_packet(points: &[(i32, i32, i32, u8)]) -> Vec<u8> {
    let n = points.len();
    let mut p = header(1, (36 + 14 * n) as u16, n as u16);
    for &(x, y, z, r) in points {
        p.extend(record(x, y, z, r));
    }
    p
}

#[test]
fn lidar_packet_decodes_and_drops_zero_points() {
    let p = lidar_packet(&[(1500, -20, 7, 90), (0, 0, 0, 5), (-1, 2, -3, 255)]);
    let d = parse_laserpoint(&p).unwrap();
    assert_eq!(d.header.version, 5);
    assert_eq!(d.header.dot_num, 3);
    assert_eq!(d.header.udp_cnt, 513);
    assert_eq!(d.header.frame_cnt, 3);
    assert_eq!(d.header.crc32, 0xdead_beef);
    assert_eq!(d.header.timestamp, 123_456_789_012);
    assert_eq!(
        d.points,
        vec![LaserPoint::new(1500, -20, 7, 90), LaserPoint::new(-1, 2, -3, 255)]
    );
}

#[test]
fn lidar_decode_errors() {
    assert_eq!(parse_laserpoint(&[0u8; 10]).unwrap_err(), DecodeError::Truncated);
    let mut bad_type = lidar_packet(&[(1, 1, 1, 1)]);
    bad_type[10] = 7;
    assert_eq!(parse_laserpoint(&bad_type).unwrap_err(), DecodeError::UnsupportedType);
    let mut long = lidar_packet(&[(1, 1, 1, 1)]);
    long[1..3].copy_from_slice(&100u16.to_le_bytes());
    assert_eq!(parse_laserpoint(&long).unwrap_err(), DecodeError::Truncated);
    let mut odd = lidar_packet(&[(1, 1, 1, 1)]);
    odd.push(0);
    odd[1..3].copy_from_slice(&51u16.to_le_bytes());
    assert_eq!(parse_laserpoint(&odd).unwrap_err(), DecodeError::Truncated);
    let mut count = lidar_packet(&[(1, 1, 1, 1), (2, 2, 2, 2)]);
    count[5..7].copy_from_slice(&1u16.to_le_bytes());
    assert_eq!(parse_laserpoint(&count).unwrap_err(), DecodeError::PayloadMismatch);
}

#[test]
fn imu_packet_decodes_float_bits() {
    let mut p = header(0, 60, 1);
    for v in [0.5f32, -1.25, 3.0, 0.0, 9.75, -0.125] {
        p.extend_from_slice(&v.to_le_bytes());
    }
    let d = parse_imu(&p).unwrap();
    assert_eq!(f32::from_bits(d.gyro_x), 0.5);
    assert_eq!(f32::from_bits(d.gyro_y), -1.25);
    assert_eq!(f32::from_bits(d.acc_y), 9.75);
    assert_eq!(f32::from_bits(d.acc_z), -0.125);
    assert_eq!(parse_imu(&p[..50]).unwrap_err(), DecodeError::Truncated);
    match decode_packet(&p).unwrap() {
        Frame::Imu(i) => assert_eq!(i, d),
        Frame::Lidar(_) => panic!("expected an IMU frame"),
    }
}

#[test]
fn decode_packet_dispatches_on_type() {
    let p = lidar_packet(&[(1, 2, 3, 4)]);
    match decode_packet(&p).unwrap() {
        Frame::Lidar(d) => assert_eq!(d.points, vec![LaserPoint::new(1, 2, 3, 4)]),
        Frame::Imu(_) => panic!("expected a LiDAR frame"),
    }
    let mut q = p.clone();
    q[10] = 2;
    assert_eq!(decode_packet(&q).unwrap_err(), DecodeError::UnsupportedType);
    assert_eq!(decode_packet(&q[..20]).unwrap_err(), DecodeError::Truncated);
}

#[test]
fn accumulation_clips_to_boundary_cube() {
    let mut acc = vec![LaserPoint::new(9, 9, 9, 9)];
    let p = lidar_packet(&[(500, 0, 0, 1), (1000, 0, 0, 2), (-999, 999, -999, 3)]);
    accumulate_packet(&mut acc, &p, 1000).unwrap();
    assert_eq!(
        acc,
        vec![
            LaserPoint::new(9, 9, 9, 9),
            LaserPoint::new(500, 0, 0, 1),
            LaserPoint::new(-999, 999, -999, 3)
        ]
    );
    assert_eq!(accumulate_packet(&mut acc, &p[..30], 1000).unwrap_err(), DecodeError::Truncated);
    assert_eq!(acc.len(), 3);
    assert!(env_sensor(&LaserPoint::new(0, 0, 0, 0), 1));
    assert!(!env_sensor(&LaserPoint::new(0, -1, 0, 0), 1));
}

#[test]
fn imu_readings_need_the_buffer_not_the_length_field() {
    // the length field says 40, the buffer holds all six readings
    let mut p = header(0, 40, 1);
    for v in [1.0f32, 2.0, 3.0, 4.0, 5.0, 6.0] {
        p.extend_from_slice(&v.to_le_bytes());
    }
    let d = parse_imu(&p).unwrap();
    assert_eq!(f32::from_bits(d.gyro_x), 1.0);
    assert_eq!(f32::from_bits(d.acc_z), 6.0);
    // a length field past the buffer is still truncated
    let mut q = p.clone();
    q[1..3].copy_from_slice(&61u16.to_le_bytes());
    assert_eq!(parse_imu(&q).unwrap_err(), DecodeError::Truncated);
}
