use netcalc::utils::ipv4::{cidr_to_sm, get_class, get_network, possible_host, sm_to_wm, vlsm};
use netcalc::utils::ipv6::{cidr_to_sm6, get_network6, sm_to_wm6};
use netcalc::utils::structs::{IPv4Class, NetHelperError};

const SUBNETMASK: [[u8; 4]; 33] = [
    [0, 0, 0, 0],
    [128, 0, 0, 0],
    [192, 0, 0, 0],
    [224, 0, 0, 0],
    [240, 0, 0, 0],
    [248, 0, 0, 0],
    [252, 0, 0, 0],
    [254, 0, 0, 0],
    [255, 0, 0, 0],
    [255, 128, 0, 0],
    [255, 192, 0, 0],
    [255, 224, 0, 0],
    [255, 240, 0, 0],
    [255, 248, 0, 0],
    [255, 252, 0, 0],
    [255, 254, 0, 0],
    [255, 255, 0, 0],
    [255, 255, 128, 0],
    [255, 255, 192, 0],
    [255, 255, 224, 0],
    [255, 255, 240, 0],
    [255, 255, 248, 0],
    [255, 255, 252, 0],
    [255, 255, 254, 0],
    [255, 255, 255, 0],
    [255, 255, 255, 128],
    [255, 255, 255, 192],
    [255, 255, 255, 224],
    [255, 255, 255, 240],
    [255, 255, 255, 248],
    [255, 255, 255, 252],
    [255, 255, 255, 254],
    [255, 255, 255, 255],
];

const WILDCARD: [[u8; 4]; 33] = [
    [255, 255, 255, 255],
    [127, 255, 255, 255],
    [63, 255, 255, 255],
    [31, 255, 255, 255],
    [15, 255, 255, 255],
    [7, 255, 255, 255],
    [3, 255, 255, 255],
    [1, 255, 255, 255],
    [0, 255, 255, 255],
    [0, 127, 255, 255],
    [0, 63, 255, 255],
    [0, 31, 255, 255],
    [0, 15, 255, 255],
    [0, 7, 255, 255],
    [0, 3, 255, 255],
    [0, 1, 255, 255],
    [0, 0, 255, 255],
    [0, 0, 127, 255],
    [0, 0, 63, 255],
    [0, 0, 31, 255],
    [0, 0, 15, 255],
    [0, 0, 7, 255],
    [0, 0, 3, 255],
    [0, 0, 1, 255],
    [0, 0, 0, 255],
    [0, 0, 0, 127],
    [0, 0, 0, 63],
    [0, 0, 0, 31],
    [0, 0, 0, 15],
    [0, 0, 0, 7],
    [0, 0, 0, 3],
    [0, 0, 0, 1],
    [0, 0, 0, 0],
];

const SUBNETMASK6: [[u16; 8]; 129] = [
    [0, 0, 0, 0, 0, 0, 0, 0],
    [32768, 0, 0, 0, 0, 0, 0, 0],
    [49152, 0, 0, 0, 0, 0, 0, 0],
    [57344, 0, 0, 0, 0, 0, 0, 0],
    [61440, 0, 0, 0, 0, 0, 0, 0],
    [63488, 0, 0, 0, 0, 0, 0, 0],
    [64512, 0, 0, 0, 0, 0, 0, 0],
    [65024, 0, 0, 0, 0, 0, 0, 0],
    [65280, 0, 0, 0, 0, 0, 0, 0],
    [65408, 0, 0, 0, 0, 0, 0, 0],
    [65472, 0, 0, 0, 0, 0, 0, 0],
    [65504, 0, 0, 0, 0, 0, 0, 0],
    [65520, 0, 0, 0, 0, 0, 0, 0],
    [65528, 0, 0, 0, 0, 0, 0, 0],
    [65532, 0, 0, 0, 0, 0, 0, 0],
    [65534, 0, 0, 0, 0, 0, 0, 0],
    [65535, 0, 0, 0, 0, 0, 0, 0],
    [65535, 32768, 0, 0, 0, 0, 0, 0],
    [65535, 49152, 0, 0, 0, 0, 0, 0],
    [65535, 57344, 0, 0, 0, 0, 0, 0],
    [65535, 61440, 0, 0, 0, 0, 0, 0],
    [65535, 63488, 0, 0, 0, 0, 0, 0],
    [65535, 64512, 0, 0, 0, 0, 0, 0],
    [65535, 65024, 0, 0, 0, 0, 0, 0],
    [65535, 65280, 0, 0, 0, 0, 0, 0],
    [65535, 65408, 0, 0, 0, 0, 0, 0],
    [65535, 65472, 0, 0, 0, 0, 0, 0],
    [65535, 65504, 0, 0, 0, 0, 0, 0],
    [65535, 65520, 0, 0, 0, 0, 0, 0],
    [65535, 65528, 0, 0, 0, 0, 0, 0],
    [65535, 65532, 0, 0, 0, 0, 0, 0],
    [65535, 65534, 0, 0, 0, 0, 0, 0],
    [65535, 65535, 0, 0, 0, 0, 0, 0],
    [65535, 65535, 32768, 0, 0, 0, 0, 0],
    [65535, 65535, 49152, 0, 0, 0, 0, 0],
    [65535, 65535, 57344, 0, 0, 0, 0, 0],
    [65535, 65535, 61440, 0, 0, 0, 0, 0],
    [65535, 65535, 63488, 0, 0, 0, 0, 0],
    [65535, 65535, 64512, 0, 0, 0, 0, 0],
    [65535, 65535, 65024, 0, 0, 0, 0, 0],
    [65535, 65535, 65280, 0, 0, 0, 0, 0],
    [65535, 65535, 65408, 0, 0, 0, 0, 0],
    [65535, 65535, 65472, 0, 0, 0, 0, 0],
    [65535, 65535, 65504, 0, 0, 0, 0, 0],
    [65535, 65535, 65520, 0, 0, 0, 0, 0],
    [65535, 65535, 65528, 0, 0, 0, 0, 0],
    [65535, 65535, 65532, 0, 0, 0, 0, 0],
    [65535, 65535, 65534, 0, 0, 0, 0, 0],
    [65535, 65535, 65535, 0, 0, 0, 0, 0],
    [65535, 65535, 65535, 32768, 0, 0, 0, 0],
    [65535, 65535, 65535, 49152, 0, 0, 0, 0],
    [65535, 65535, 65535, 57344, 0, 0, 0, 0],
    [65535, 65535, 65535, 61440, 0, 0, 0, 0],
    [65535, 65535, 65535, 63488, 0, 0, 0, 0],
    [65535, 65535, 65535, 64512, 0, 0, 0, 0],
    [65535, 65535, 65535, 65024, 0, 0, 0, 0],
    [65535, 65535, 65535, 65280, 0, 0, 0, 0],
    [65535, 65535, 65535, 65408, 0, 0, 0, 0],
    [65535, 65535, 65535, 65472, 0, 0, 0, 0],
    [65535, 65535, 65535, 65504, 0, 0, 0, 0],
    [65535, 65535, 65535, 65520, 0, 0, 0, 0],
    [65535, 65535, 65535, 65528, 0, 0, 0, 0],
    [65535, 65535, 65535, 65532, 0, 0, 0, 0],
    [65535, 65535, 65535, 65534, 0, 0, 0, 0],
    [65535, 65535, 65535, 65535, 0, 0, 0, 0],
    [65535, 65535, 65535, 65535, 32768, 0, 0, 0],
    [65535, 65535, 65535, 65535, 49152, 0, 0, 0],
    [65535, 65535, 65535, 65535, 57344, 0, 0, 0],
    [65535, 65535, 65535, 65535, 61440, 0, 0, 0],
    [65535, 65535, 65535, 65535, 63488, 0, 0, 0],
    [65535, 65535, 65535, 65535, 64512, 0, 0, 0],
    [65535, 65535, 65535, 65535, 65024, 0, 0, 0],
    [65535, 65535, 65535, 65535, 65280, 0, 0, 0],
    [65535, 65535, 65535, 65535, 65408, 0, 0, 0],
    [65535, 65535, 65535, 65535, 65472, 0, 0, 0],
    [65535, 65535, 65535, 65535, 65504, 0, 0, 0],
    [65535, 65535, 65535, 65535, 65520, 0, 0, 0],
    [65535, 65535, 65535, 65535, 65528, 0, 0, 0],
    [65535, 65535, 65535, 65535, 65532, 0, 0, 0],
    [65535, 65535, 65535, 65535, 65534, 0, 0, 0],
    [65535, 65535, 65535, 65535, 65535, 0, 0, 0],
    [65535, 65535, 65535, 65535, 65535, 32768, 0, 0],
    [65535, 65535, 65535, 65535, 65535, 49152, 0, 0],
    [65535, 65535, 65535, 65535, 65535, 57344, 0, 0],
    [65535, 65535, 65535, 65535, 65535, 61440, 0, 0],
    [65535, 65535, 65535, 65535, 65535, 63488, 0, 0],
    [65535, 65535, 65535, 65535, 65535, 64512, 0, 0],
    [65535, 65535, 65535, 65535, 65535, 65024, 0, 0],
    [65535, 65535, 65535, 65535, 65535, 65280, 0, 0],
    [65535, 65535, 65535, 65535, 65535, 65408, 0, 0],
    [65535, 65535, 65535, 65535, 65535, 65472, 0, 0],
    [65535, 65535, 65535, 65535, 65535, 65504, 0, 0],
    [65535, 65535, 65535, 65535, 65535, 65520, 0, 0],
    [65535, 65535, 65535, 65535, 65535, 65528, 0, 0],
    [65535, 65535, 65535, 65535, 65535, 65532, 0, 0],
    [65535, 65535, 65535, 65535, 65535, 65534, 0, 0],
    [65535, 65535, 65535, 65535, 65535, 65535, 0, 0],
    [65535, 65535, 65535, 65535, 65535, 65535, 32768, 0],
    [65535, 65535, 65535, 65535, 65535, 65535, 49152, 0],
    [65535, 65535, 65535, 65535, 65535, 65535, 57344, 0],
    [65535, 65535, 65535, 65535, 65535, 65535, 61440, 0],
    [65535, 65535, 65535, 65535, 65535, 65535, 63488, 0],
    [65535, 65535, 65535, 65535, 65535, 65535, 64512, 0],
    [65535, 65535, 65535, 65535, 65535, 65535, 65024, 0],
    [65535, 65535, 65535, 65535, 65535, 65535, 65280, 0],
    [65535, 65535, 65535, 65535, 65535, 65535, 65408, 0],
    [65535, 65535, 65535, 65535, 65535, 65535, 65472, 0],
    [65535, 65535, 65535, 65535, 65535, 65535, 65504, 0],
    [65535, 65535, 65535, 65535, 65535, 65535, 65520, 0],
    [65535, 65535, 65535, 65535, 65535, 65535, 65528, 0],
    [65535, 65535, 65535, 65535, 65535, 65535, 65532, 0],
    [65535, 65535, 65535, 65535, 65535, 65535, 65534, 0],
    [65535, 65535, 65535, 65535, 65535, 65535, 65535, 0],
    [65535, 65535, 65535, 65535, 65535, 65535, 65535, 32768],
    [65535, 65535, 65535, 65535, 65535, 65535, 65535, 49152],
    [65535, 65535, 65535, 65535, 65535, 65535, 65535, 57344],
    [65535, 65535, 65535, 65535, 65535, 65535, 65535, 61440],
    [65535, 65535, 65535, 65535, 65535, 65535, 65535, 63488],
    [65535, 65535, 65535, 65535, 65535, 65535, 65535, 64512],
    [65535, 65535, 65535, 65535, 65535, 65535, 65535, 65024],
    [65535, 65535, 65535, 65535, 65535, 65535, 65535, 65280],
    [65535, 65535, 65535, 65535, 65535, 65535, 65535, 65408],
    [65535, 65535, 65535, 65535, 65535, 65535, 65535, 65472],
    [65535, 65535, 65535, 65535, 65535, 65535, 65535, 65504],
    [65535, 65535, 65535, 65535, 65535, 65535, 65535, 65520],
    [65535, 65535, 65535, 65535, 65535, 65535, 65535, 65528],
    [65535, 65535, 65535, 65535, 65535, 65535, 65535, 65532],
    [65535, 65535, 65535, 65535, 65535, 65535, 65535, 65534],
    [65535, 65535, 65535, 65535, 65535, 65535, 65535, 65535],
];

const WILDCARD6: [[u16; 8]; 129] = [
    [65535, 65535, 65535, 65535, 65535, 65535, 65535, 65535],
    [32767, 65535, 65535, 65535, 65535, 65535, 65535, 65535],
    [16383, 65535, 65535, 65535, 65535, 65535, 65535, 65535],
    [8191, 65535, 65535, 65535, 65535, 65535, 65535, 65535],
    [4095, 65535, 65535, 65535, 65535, 65535, 65535, 65535],
    [2047, 65535, 65535, 65535, 65535, 65535, 65535, 65535],
    [1023, 65535, 65535, 65535, 65535, 65535, 65535, 65535],
    [511, 65535, 65535, 65535, 65535, 65535, 65535, 65535],
    [255, 65535, 65535, 65535, 65535, 65535, 65535, 65535],
    [127, 65535, 65535, 65535, 65535, 65535, 65535, 65535],
    [63, 65535, 65535, 65535, 65535, 65535, 65535, 65535],
    [31, 65535, 65535, 65535, 65535, 65535, 65535, 65535],
    [15, 65535, 65535, 65535, 65535, 65535, 65535, 65535],
    [7, 65535, 65535, 65535, 65535, 65535, 65535, 65535],
    [3, 65535, 65535, 65535, 65535, 65535, 65535, 65535],
    [1, 65535, 65535, 65535, 65535, 65535, 65535, 65535],
    [0, 65535, 65535, 65535, 65535, 65535, 65535, 65535],
    [0, 32767, 65535, 65535, 65535, 65535, 65535, 65535],
    [0, 16383, 65535, 65535, 65535, 65535, 65535, 65535],
    [0, 8191, 65535, 65535, 65535, 65535, 65535, 65535],
    [0, 4095, 65535, 65535, 65535, 65535, 65535, 65535],
    [0, 2047, 65535, 65535, 65535, 65535, 65535, 65535],
    [0, 1023, 65535, 65535, 65535, 65535, 65535, 65535],
    [0, 511, 65535, 65535, 65535, 65535, 65535, 65535],
    [0, 255, 65535, 65535, 65535, 65535, 65535, 65535],
    [0, 127, 65535, 65535, 65535, 65535, 65535, 65535],
    [0, 63, 65535, 65535, 65535, 65535, 65535, 65535],
    [0, 31, 65535, 65535, 65535, 65535, 65535, 65535],
    [0, 15, 65535, 65535, 65535, 65535, 65535, 65535],
    [0, 7, 65535, 65535, 65535, 65535, 65535, 65535],
    [0, 3, 65535, 65535, 65535, 65535, 65535, 65535],
    [0, 1, 65535, 65535, 65535, 65535, 65535, 65535],
    [0, 0, 65535, 65535, 65535, 65535, 65535, 65535],
    [0, 0, 32767, 65535, 65535, 65535, 65535, 65535],
    [0, 0, 16383, 65535, 65535, 65535, 65535, 65535],
    [0, 0, 8191, 65535, 65535, 65535, 65535, 65535],
    [0, 0, 4095, 65535, 65535, 65535, 65535, 65535],
    [0, 0, 2047, 65535, 65535, 65535, 65535, 65535],
    [0, 0, 1023, 65535, 65535, 65535, 65535, 65535],
    [0, 0, 511, 65535, 65535, 65535, 65535, 65535],
    [0, 0, 255, 65535, 65535, 65535, 65535, 65535],
    [0, 0, 127, 65535, 65535, 65535, 65535, 65535],
    [0, 0, 63, 65535, 65535, 65535, 65535, 65535],
    [0, 0, 31, 65535, 65535, 65535, 65535, 65535],
    [0, 0, 15, 65535, 65535, 65535, 65535, 65535],
    [0, 0, 7, 65535, 65535, 65535, 65535, 65535],
    [0, 0, 3, 65535, 65535, 65535, 65535, 65535],
    [0, 0, 1, 65535, 65535, 65535, 65535, 65535],
    [0, 0, 0, 65535, 65535, 65535, 65535, 65535],
    [0, 0, 0, 32767, 65535, 65535, 65535, 65535],
    [0, 0, 0, 16383, 65535, 65535, 65535, 65535],
    [0, 0, 0, 8191, 65535, 65535, 65535, 65535],
    [0, 0, 0, 4095, 65535, 65535, 65535, 65535],
    [0, 0, 0, 2047, 65535, 65535, 65535, 65535],
    [0, 0, 0, 1023, 65535, 65535, 65535, 65535],
    [0, 0, 0, 511, 65535, 65535, 65535, 65535],
    [0, 0, 0, 255, 65535, 65535, 65535, 65535],
    [0, 0, 0, 127, 65535, 65535, 65535, 65535],
    [0, 0, 0, 63, 65535, 65535, 65535, 65535],
    [0, 0, 0, 31, 65535, 65535, 65535, 65535],
    [0, 0, 0, 15, 65535, 65535, 65535, 65535],
    [0, 0, 0, 7, 65535, 65535, 65535, 65535],
    [0, 0, 0, 3, 65535, 65535, 65535, 65535],
    [0, 0, 0, 1, 65535, 65535, 65535, 65535],
    [0, 0, 0, 0, 65535, 65535, 65535, 65535],
    [0, 0, 0, 0, 32767, 65535, 65535, 65535],
    [0, 0, 0, 0, 16383, 65535, 65535, 65535],
    [0, 0, 0, 0, 8191, 65535, 65535, 65535],
    [0, 0, 0, 0, 4095, 65535, 65535, 65535],
    [0, 0, 0, 0, 2047, 65535, 65535, 65535],
    [0, 0, 0, 0, 1023, 65535, 65535, 65535],
    [0, 0, 0, 0, 511, 65535, 65535, 65535],
    [0, 0, 0, 0, 255, 65535, 65535, 65535],
    [0, 0, 0, 0, 127, 65535, 65535, 65535],
    [0, 0, 0, 0, 63, 65535, 65535, 65535],
    [0, 0, 0, 0, 31, 65535, 65535, 65535],
    [0, 0, 0, 0, 15, 65535, 65535, 65535],
    [0, 0, 0, 0, 7, 65535, 65535, 65535],
    [0, 0, 0, 0, 3, 65535, 65535, 65535],
    [0, 0, 0, 0, 1, 65535, 65535, 65535],
    [0, 0, 0, 0, 0, 65535, 65535, 65535],
    [0, 0, 0, 0, 0, 32767, 65535, 65535],
    [0, 0, 0, 0, 0, 16383, 65535, 65535],
    [0, 0, 0, 0, 0, 8191, 65535, 65535],
    [0, 0, 0, 0, 0, 4095, 65535, 65535],
    [0, 0, 0, 0, 0, 2047, 65535, 65535],
    [0, 0, 0, 0, 0, 1023, 65535, 65535],
    [0, 0, 0, 0, 0, 511, 65535, 65535],
    [0, 0, 0, 0, 0, 255, 65535, 65535],
    [0, 0, 0, 0, 0, 127, 65535, 65535],
    [0, 0, 0, 0, 0, 63, 65535, 65535],
    [0, 0, 0, 0, 0, 31, 65535, 65535],
    [0, 0, 0, 0, 0, 15, 65535, 65535],
    [0, 0, 0, 0, 0, 7, 65535, 65535],
    [0, 0, 0, 0, 0, 3, 65535, 65535],
    [0, 0, 0, 0, 0, 1, 65535, 65535],
    [0, 0, 0, 0, 0, 0, 65535, 65535],
    [0, 0, 0, 0, 0, 0, 32767, 65535],
    [0, 0, 0, 0, 0, 0, 16383, 65535],
    [0, 0, 0, 0, 0, 0, 8191, 65535],
    [0, 0, 0, 0, 0, 0, 4095, 65535],
    [0, 0, 0, 0, 0, 0, 2047, 65535],
    [0, 0, 0, 0, 0, 0, 1023, 65535],
    [0, 0, 0, 0, 0, 0, 511, 65535],
    [0, 0, 0, 0, 0, 0, 255, 65535],
    [0, 0, 0, 0, 0, 0, 127, 65535],
    [0, 0, 0, 0, 0, 0, 63, 65535],
    [0, 0, 0, 0, 0, 0, 31, 65535],
    [0, 0, 0, 0, 0, 0, 15, 65535],
    [0, 0, 0, 0, 0, 0, 7, 65535],
    [0, 0, 0, 0, 0, 0, 3, 65535],
    [0, 0, 0, 0, 0, 0, 1, 65535],
    [0, 0, 0, 0, 0, 0, 0, 65535],
    [0, 0, 0, 0, 0, 0, 0, 32767],
    [0, 0, 0, 0, 0, 0, 0, 16383],
    [0, 0, 0, 0, 0, 0, 0, 8191],
    [0, 0, 0, 0, 0, 0, 0, 4095],
    [0, 0, 0, 0, 0, 0, 0, 2047],
    [0, 0, 0, 0, 0, 0, 0, 1023],
    [0, 0, 0, 0, 0, 0, 0, 511],
    [0, 0, 0, 0, 0, 0, 0, 255],
    [0, 0, 0, 0, 0, 0, 0, 127],
    [0, 0, 0, 0, 0, 0, 0, 63],
    [0, 0, 0, 0, 0, 0, 0, 31],
    [0, 0, 0, 0, 0, 0, 0, 15],
    [0, 0, 0, 0, 0, 0, 0, 7],
    [0, 0, 0, 0, 0, 0, 0, 3],
    [0, 0, 0, 0, 0, 0, 0, 1],
    [0, 0, 0, 0, 0, 0, 0, 0],
];

const IPV4_HOSTS: [u32; 33] = [
    4294967294,
    2147483646,
    1073741822,
    536870910,
    268435454,
    134217726,
    67108862,
    33554430,
    16777214,
    8388606,
    4194302,
    2097150,
    1048574,
    524286,
    262142,
    131070,
    65534,
    32766,
    16382,
    8190,
    4094,
    2046,
    1022,
    510,
    254,
    126,
    62,
    30,
    14,
    6,
    2,
    2,
    1,
];

#[test]
fn network_class() {
    for i in 0..=255u8 {
        if i <= 127 {
            assert_eq!(get_class(i).unwrap(), IPv4Class::A);
        } else if i >= 128 && i <= 191 {
            assert_eq!(get_class(i).unwrap(), IPv4Class::B);
        } else if i >= 192 && i <= 223 {
            assert_eq!(get_class(i).unwrap(), IPv4Class::C);
        } else if i >= 224 && i <= 239 {
            assert_eq!(get_class(i).unwrap(), IPv4Class::D);
        } else if i >= 240 {
            assert_eq!(get_class(i).unwrap(), IPv4Class::E);
        }
    }
}

#[test]
fn cidr_mask() {
    for i in 0..=40 {
        match cidr_to_sm(i) {
            Ok(sm) => {
                println!("{i}. {:?}", sm);
                assert_eq!(sm, SUBNETMASK[i as usize]);
            }
            Err(e) => {
                println!("{i}. {:?}", e);
            }
        }
    }
}

#[test]
fn cidr_mask6() {
    for i in 0..=140 {
        match cidr_to_sm6(i) {
            Ok(sm) => {
                println!("{i}. {:?}", sm);
                assert_eq!(sm, SUBNETMASK6[i as usize]);
            }
            Err(e) => {
                println!("{i}. {:?}", e);
            }
        }
    }
}

#[test]
fn mask_wildcard() {
    for i in 0..=40 {
        match cidr_to_sm(i) {
            Ok(sm) => {
                let wm = sm_to_wm(sm);
                println!("{i}. {:?}", wm);
                assert_eq!(wm, WILDCARD[i as usize]);
            }
            Err(e) => {
                println!("{i}. {:?}", e);
            }
        }
    }
}

#[test]
fn mask_wildcard6() {
    for i in 0..=140 {
        match cidr_to_sm6(i) {
            Ok(sm) => {
                let wm = sm_to_wm6(sm);
                println!("{i}. {:?}", wm);
                assert_eq!(wm, WILDCARD6[i as usize]);
            }
            Err(e) => {
                println!("{i}. {:?}", e);
            }
        }
    }
}

#[test]
fn vlsm_test() {
    match vlsm("192.168.1.1", 24, vec![30, 20, 1]) {
        Ok(a) => {
            assert_eq!(a, [["192.168.1.0/27", "192.168.1.31", "192.168.1.1", "192.168.1.30", "30 (2^5)"], ["192.168.1.32/27", "192.168.1.63", "192.168.1.33", "192.168.1.62", "20 (2^5)"], ["192.168.1.64/30", "192.168.1.67", "192.168.1.65", "192.168.1.66", "1 (2^2)"]]);
        }
        Err(e) => {
            println!("{}", e.to_string());
        }
    };
    match vlsm("192.168.1.1", 16, vec![1, 1555, 30]) {
        Ok(a) => {
            assert_eq!(a, [["192.168.0.0/21", "192.168.7.255", "192.168.0.1", "192.168.7.254", "1555 (2^11)"], ["192.168.8.0/27", "192.168.8.31", "192.168.8.1", "192.168.8.30", "30 (2^5)"], ["192.168.8.32/30", "192.168.8.35", "192.168.8.33", "192.168.8.34", "1 (2^2)"]]);
        }
        Err(e) => {
            println!("{}", e.to_string());
        }
    };

    match vlsm("192.168.1.1", 24, vec![100, 27, 27, 27, 27]) {
        Ok(a) => {
            assert_eq!(a, [["192.168.1.0/25", "192.168.1.127", "192.168.1.1", "192.168.1.126", "100 (2^7)"], ["192.168.1.128/27", "192.168.1.159", "192.168.1.129", "192.168.1.158", "27 (2^5)"], ["192.168.1.160/27", "192.168.1.191", "192.168.1.161", "192.168.1.190", "27 (2^5)"], ["192.168.1.192/27", "192.168.1.223", "192.168.1.193", "192.168.1.222", "27 (2^5)"], ["192.168.1.224/27", "192.168.1.255", "192.168.1.225", "192.168.1.254", "27 (2^5)"]]);
        }
        Err(e) => {
            println!("{}", e.to_string());
        }
    };

    match vlsm("192.168.1.1", 24, vec![100, 27, 27, 27, 27, 27]) {
        Ok(a) => {
            println!("{:?}", a);
        }
        Err(e) => {
            assert_eq!(e, NetHelperError::NoSpace);
        }
    };

    match vlsm("255.255.255.255", 8, vec![16_777_215]) {
        Ok(a) => {
            println!("{:?}", a);
        }
        Err(e) => {
            assert_eq!(e, NetHelperError::NoSpace);
        }
    };

    match vlsm("192.168.1.1", 24, vec![126, 126]) {
        Ok(a) => {
            assert_eq!(a, [["192.168.1.0/25", "192.168.1.127", "192.168.1.1", "192.168.1.126", "126 (2^7)"], ["192.168.1.128/25", "192.168.1.255", "192.168.1.129", "192.168.1.254", "126 (2^7)"]]);
        }
        Err(e) => {
            println!("{}", e.to_string());
        }
    }
}

#[test]
fn network() {
    match get_network("192.168.1.1", 24) {
        Ok(a) => {
            assert_eq!(a[0], [192, 168, 1, 0]);
            assert_eq!(a[1], [255, 255, 255, 0]);
            assert_eq!(a[2], [0, 0, 0, 255]);
            assert_eq!(a[3], [192, 168, 1, 255]);
            assert_eq!(a[4], [192, 168, 1, 1]);
            assert_eq!(a[5], [192, 168, 1, 254]);
        }
        Err(e) => {
            println!("{}", e.to_string());
        }
    }

    match get_network("192.168.1.1", 30) {
        Ok(a) => {
            assert_eq!(a[0], [192, 168, 1, 0]);
            assert_eq!(a[1], [255, 255, 255, 252]);
            assert_eq!(a[2], [0, 0, 0, 3]);
            assert_eq!(a[3], [192, 168, 1, 3]);
            assert_eq!(a[4], [192, 168, 1, 1]);
            assert_eq!(a[5], [192, 168, 1, 2]);
        }
        Err(e) => {
            println!("{}", e.to_string());
        }
    }

    match get_network("192.168.1.1", 1) {
        Ok(a) => {
            assert_eq!(a[0], [128, 0, 0, 0]);
            assert_eq!(a[1], [128, 0, 0, 0]);
            assert_eq!(a[2], [127, 255, 255, 255]);
            assert_eq!(a[3], [255, 255, 255, 255]);
            assert_eq!(a[4], [128, 0, 0, 1]);
            assert_eq!(a[5], [255, 255, 255, 254]);
        }
        Err(e) => {
            println!("{}", e.to_string());
        }
    }

    match get_network("0.0.0.0", 1) {
        Ok(a) => {
            assert_eq!(a[0], [0, 0, 0, 0]);
            assert_eq!(a[1], [128, 0, 0, 0]);
            assert_eq!(a[2], [127, 255, 255, 255]);
            assert_eq!(a[3], [127, 255, 255, 255]);
            assert_eq!(a[4], [0, 0, 0, 1]);
            assert_eq!(a[5], [127, 255, 255, 254]);
        }
        Err(e) => {
            println!("{}", e.to_string());
        }
    }

    match get_network("0.0.0.0", 30) {
        Ok(a) => {
            assert_eq!(a[0], [0, 0, 0, 0]);
            assert_eq!(a[1], [255, 255, 255, 252]);
            assert_eq!(a[2], [0, 0, 0, 3]);
            assert_eq!(a[3], [0, 0, 0, 3]);
            assert_eq!(a[4], [0, 0, 0, 1]);
            assert_eq!(a[5], [0, 0, 0, 2]);
        }
        Err(e) => {
            println!("{}", e.to_string());
        }
    }

    match get_network("255.255.255.255", 1) {
        Ok(a) => {
            assert_eq!(a[0], [128, 0, 0, 0]);
            assert_eq!(a[1], [128, 0, 0, 0]);
            assert_eq!(a[2], [127, 255, 255, 255]);
            assert_eq!(a[3], [255, 255, 255, 255]);
            assert_eq!(a[4], [128, 0, 0, 1]);
            assert_eq!(a[5], [255, 255, 255, 254]);
        }
        Err(e) => {
            println!("{}", e.to_string());
        }
    }
    match get_network("255.255.255.255", 30) {
        Ok(a) => {
            assert_eq!(a[0], [255, 255, 255, 252]);
            assert_eq!(a[1], [255, 255, 255, 252]);
            assert_eq!(a[2], [0, 0, 0, 3]);
            assert_eq!(a[3], [255, 255, 255, 255]);
            assert_eq!(a[4], [255, 255, 255, 253]);
            assert_eq!(a[5], [255, 255, 255, 254]);
        }
        Err(e) => {
            println!("{}", e.to_string());
        }
    }

    let a = get_network("255.255.256.3", 30);
    assert_eq!(a.is_err(), true, "{}", a.unwrap_err().to_string());
}

#[test]
fn network6() {
    match get_network6("2001:0db8:85a3:0000:0000:8a2e:0370:7334", 64) {
        Ok(a) => {
            assert_eq!(a[0], [0x2001, 0xdb8, 0x85a3, 0, 0, 0, 0, 0]);
            assert_eq!(a[1], [0xFFFF, 0xFFFF, 0xFFFF, 0xFFFF, 0, 0, 0, 0]);
            assert_eq!(a[2], [0, 0, 0, 0, 0xFFFF, 0xFFFF, 0xFFFF, 0xFFFF]);
            assert_eq!(a[3], [0x2001, 0x0db8, 0x85a3, 0, 0, 0, 0, 0]);
            assert_eq!(a[4], [0x2001, 0x0db8, 0x85a3, 0, 0xffff, 0xffff, 0xffff, 0xffff]);
        }
        Err(e) => {
            println!("{}", e.to_string());
        }
    }

    match get_network6("2001:0db8:85a3:0000:0000:8a2e:0370:7334", 128) {
        Ok(a) => {
            assert_eq!(a[0], [0x2001, 0xdb8, 0x85a3, 0, 0, 0x8a2e, 0x0370, 0x7334]);
            assert_eq!(a[1], [0xFFFF, 0xFFFF, 0xFFFF, 0xFFFF, 0xFFFF, 0xFFFF, 0xFFFF, 0xFFFF]);
            assert_eq!(a[2], [0, 0, 0, 0, 0, 0, 0, 0]);
            assert_eq!(a[3], [0x2001, 0xdb8, 0x85a3, 0, 0, 0x8a2e, 0x0370, 0x7334]);
            assert_eq!(a[4], [0x2001, 0xdb8, 0x85a3, 0, 0, 0x8a2e, 0x0370, 0x7334]);
        }
        Err(e) => {
            println!("{}", e.to_string());
        }
    }

    match get_network6("2001:0db8:85a3:0000:0000:8a2e:0370:7334", 1) {
        Ok(a) => {
            assert_eq!(a[0], [0, 0, 0, 0, 0, 0, 0, 0]);
            assert_eq!(a[1], [0x8000, 0, 0, 0, 0, 0, 0, 0]);
            assert_eq!(a[2], [0x7FFF, 0xFFFF, 0xFFFF, 0xFFFF, 0xFFFF, 0xFFFF, 0xFFFF, 0xFFFF]);
            assert_eq!(a[3], [0, 0, 0, 0, 0, 0, 0, 0]);
            assert_eq!(a[4], [0x7fff, 0xffff, 0xFFFF, 0xFFFF, 0xFFFF, 0xFFFF, 0xFFFF, 0xFFFF]);
        }
        Err(e) => {
            println!("{}", e.to_string());
        }
    }
}

#[test]
fn test_host4() {
    for i in 0..=32 {
        let a = possible_host(i);
        println!("{i}. {a}");
        assert_eq!(a, IPV4_HOSTS[i as usize]);
    }
}
