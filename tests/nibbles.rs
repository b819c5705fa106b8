use nights_into_bins::texture::convert_4bit::{convert32x32, convert64x64_4bit};

// The stored-order transforms as sequences of in-place swaps, for comparison.
fn ref32(array: &mut [u16]) {
    for i in (0..array.len()).step_by(2) {
        array.swap(i, i + 1);
    }
    let mut temp = [0u16; 1024];
    for i in 0..16 {
        for j in 0..64 {
            let index = if i % 2 == 0 { i / 2 * 64 + j } else { i / 2 * 64 + j + 512 };
            temp[index] = array[i * 64 + j];
        }
    }
    array[..1024].copy_from_slice(&temp);
    for i in 0..16 {
        for j in 0..32 {
            if (i / 2 % 2 == 0 && (j % 4 == 1 || j % 4 == 2))
                || (i / 2 % 2 == 1 && (j % 4 == 0 || j % 4 == 3))
            {
                array.swap((i * 2 + 1) * 32 + j, i * 2 * 32 + j);
            }
        }
    }
    for i in 0..32 {
        for j in 0..32 {
            temp[i * 32 + j] = array[i * 32 + (j % 4) * 8 + j / 4];
        }
    }
    array[..1024].copy_from_slice(&temp);
    for i in 0..16 {
        for j in 0..4 {
            for k in 0..4 {
                array.swap((i * 2 + 1) * 32 + j * 8 + 4 + k, i * 2 * 32 + j * 8 + k);
            }
        }
    }
    for i in 0..32 {
        for j in 0..4 {
            for k in 0..4 {
                if j % 2 == 1 {
                    array.swap(i * 32 + j * 8 + 4 + k, i * 32 + j * 8 + k);
                }
            }
        }
    }
    for i in 0..8 {
        for j in 0..32 {
            array.swap(i * 128 + 32 + j, i * 128 + 64 + j);
        }
    }
}

fn ref_quarter(array: &mut [u16]) {
    let mut temp = vec![0u16; array.len()];
    for i in 0..32 {
        for j in 0..32 {
            temp[i * 32 + j] = array[i * 32 + (j % 4) * 8 + j / 4];
        }
    }
    for i in 0..32 {
        for j in 0..32 {
            array[i * 32 + j] = if i % 2 == 0 {
                temp[i / 8 * 8 * 32 + i % 8 / 2 * 32 + j]
            } else {
                temp[i / 8 * 8 * 32 + i % 8 / 2 * 32 + 4 * 32 + j]
            };
        }
    }
}

fn ref64(array: &mut [u16]) {
    for i in (0..array.len()).step_by(2) {
        array.swap(i, i + 1);
    }
    const W: usize = 64;
    for row in 0..64 {
        if row / 8 % 2 == 1 {
            for j in 0..W / 4 {
                let temp = array[row * W + j * 2 + 1];
                array[row * W + j * 2 + 1] = array[row * W + W / 2 + j * 2];
                array[row * W + W / 2 + j * 2] = array[row * W + W / 2 + j * 2 + 1];
                array[row * W + W / 2 + j * 2 + 1] = temp;
            }
        } else {
            for j in 0..W / 4 {
                let temp = array[row * W + W / 2 + j * 2];
                array[row * W + W / 2 + j * 2] = array[row * W + j * 2 + 1];
                array[row * W + j * 2 + 1] = array[row * W + j * 2];
                array[row * W + j * 2] = temp;
            }
        }
    }
    let mut chunk = vec![0u16; array.len()];
    for w in 0..2 {
        for h in 0..2 {
            for c in 0..32 {
                for d in 0..32 {
                    chunk[c * 32 + d] = array[h * W * 32 + c * W + w * 32 + d];
                }
            }
            ref_quarter(&mut chunk[..1024]);
            for c in 0..32 {
                for d in 0..32 {
                    array[h * W * 32 + c * W + w * 32 + d] = chunk[c * 32 + d];
                }
            }
        }
    }
    let mut out = vec![0u16; array.len()];
    for i in 0..64 {
        for j in 0..32 {
            let base = i % 16 / 4 * 16 * 32 + i / 16 * 4 * 32 + (1 - i / 2 % 2) * 32;
            if i % 2 == 1 {
                out[(i - 1) * 2 * 32 + j + 32] = array[base + 32 * 64 + j];
                out[(i - 1) * 2 * 32 + j + 32 + 64] = array[base + 32 * 64 + j + 64];
            } else {
                out[i * 2 * 32 + j] = array[base + j];
                out[i * 2 * 32 + j + 64] = array[base + j + 64];
            }
        }
    }
    array.copy_from_slice(&out);
}

#[test]
fn convert32x32_matches_reference() {
    let mut a: Vec<u16> = (0..1024).collect();
    let mut b = a.clone();
    convert32x32(&mut a);
    ref32(&mut b);
    assert_eq!(a, b);
}

#[test]
fn convert32x32_is_a_permutation() {
    let mut a: Vec<u16> = (0..1024).collect();
    convert32x32(&mut a);
    let mut sorted = a.clone();
    sorted.sort();
    assert_eq!(sorted, (0..1024).collect::<Vec<u16>>());
    assert_ne!(a, (0..1024).collect::<Vec<u16>>());
}

#[test]
fn convert64x64_matches_reference() {
    let mut a: Vec<u16> = (0..4096).collect();
    let mut b = a.clone();
    convert64x64_4bit(&mut a);
    ref64(&mut b);
    assert_eq!(a, b);
}

#[test]
fn convert64x64_is_a_permutation() {
    let mut a: Vec<u16> = (0..4096).collect();
    convert64x64_4bit(&mut a);
    let mut sorted = a.clone();
    sorted.sort();
    assert_eq!(sorted, (0..4096).collect::<Vec<u16>>());
}
