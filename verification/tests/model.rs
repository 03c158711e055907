use monoterm::{Filter, Intensity};

/// A model of the filter written with `split` and `parse` of the standard
/// library, for comparison.
struct Plain {
    bold: bool,
    state: u8,
    params: Vec<u8>,
    foreground: bool,
    background: bool,
    reverse: bool,
    intensity: Intensity,
}

impl Plain {
    fn new(bold: bool) -> Plain {
        Plain {
            bold,
            state: 0,
            params: Vec::new(),
            foreground: false,
            background: false,
            reverse: false,
            intensity: Intensity::Normal,
        }
    }

    fn shown(&self) -> (bool, Intensity) {
        let intensity = if self.intensity == Intensity::Normal && self.bold && self.foreground {
            Intensity::High
        } else {
            self.intensity
        };
        (self.background ^ self.reverse, intensity)
    }

    fn rewrite(&mut self) -> Vec<u8> {
        let before = self.shown();
        let text = String::from_utf8(self.params.clone()).unwrap();
        let tokens: Vec<&str> = text.split(';').collect();
        let codes: Vec<Option<u8>> = tokens
            .iter()
            .map(|t| if t.is_empty() { Some(0) } else { t.parse::<u8>().ok() })
            .collect();
        let mut sent: Vec<String> = Vec::new();
        let mut i = 0;
        while i < tokens.len() {
            let mut step = 1;
            match codes[i] {
                Some(0) => {
                    self.foreground = false;
                    self.background = false;
                    self.reverse = false;
                    self.intensity = Intensity::Normal;
                    sent.push("0".to_string());
                }
                Some(1) => self.intensity = Intensity::High,
                Some(2) => self.intensity = Intensity::Low,
                Some(22) => self.intensity = Intensity::Normal,
                Some(7) => self.reverse = true,
                Some(27) => self.reverse = false,
                Some(39) => self.foreground = false,
                Some(49) => self.background = false,
                Some(58) | Some(59) => {}
                Some(n) if (30..=37).contains(&n) || (90..=97).contains(&n) => {
                    self.foreground = true
                }
                Some(n) if (40..=47).contains(&n) || (100..=107).contains(&n) => {
                    self.background = true
                }
                Some(n) if n == 38 || n == 48 => {
                    if n == 38 {
                        self.foreground = true;
                    } else {
                        self.background = true;
                    }
                    step += match codes.get(i + 1) {
                        Some(Some(5)) => 2,
                        Some(Some(2)) => 4,
                        Some(_) => 1,
                        None => 0,
                    };
                }
                _ => sent.push(tokens[i].to_string()),
            }
            i += step;
        }
        let after = self.shown();
        if after.0 != before.0 {
            sent.push(if after.0 { "7" } else { "27" }.to_string());
        }
        if after.1 != before.1 {
            sent.push(
                match after.1 {
                    Intensity::High => "1",
                    Intensity::Low => "2",
                    Intensity::Normal => "22",
                }
                .to_string(),
            );
        }
        if sent.is_empty() {
            Vec::new()
        } else {
            format!("\x1b[{}m", sent.join(";")).into_bytes()
        }
    }

    fn feed(&mut self, data: &[u8]) -> Vec<u8> {
        let mut out = Vec::new();
        for &b in data {
            match self.state {
                0 => {
                    if b == 0x1b {
                        self.state = 1;
                    } else {
                        out.push(b);
                    }
                }
                1 => {
                    if b == b'[' {
                        self.state = 2;
                        self.params.clear();
                    } else {
                        self.state = 0;
                        out.extend_from_slice(&[0x1b, b]);
                    }
                }
                _ => {
                    if b == b'm' {
                        self.state = 0;
                        let sequence = self.rewrite();
                        out.extend(sequence);
                    } else if (b.is_ascii_digit() || b == b';') && self.params.len() < 128 {
                        self.params.push(b);
                    } else {
                        self.state = 0;
                        out.extend_from_slice(b"\x1b[");
                        out.extend_from_slice(&self.params);
                        out.push(b);
                    }
                }
            }
        }
        out
    }
}

/// Numbers that look random and are the same on every run.
struct Numbers(u64);

impl Numbers {
    fn next(&mut self, below: usize) -> usize {
        self.0 = self.0.wrapping_mul(6364136223846793005).wrapping_add(1442695040888963407);
        ((self.0 >> 33) as usize) % below
    }
}

fn some_stream(numbers: &mut Numbers, len: usize) -> Vec<u8> {
    let codes: [&str; 40] = [
        "", "0", "00", "1", "2", "5", "7", "22", "27", "30", "31", "37", "38", "39", "40", "41",
        "47", "48", "49", "58", "59", "90", "97", "98", "100", "107", "108", "4", "9", "21", "255",
        "256", "300", "002", "005", "038", "10", "20", "196", "99999",
    ];
    let mut data = Vec::new();
    while data.len() < len {
        match numbers.next(10) {
            0 => data.extend_from_slice(b"text "),
            1 => data.push(0x1b),
            2 => data.push(numbers.next(256) as u8),
            3 => data.extend_from_slice(b"\x1b[2J"),
            4 => {
                data.extend_from_slice(b"\x1b[");
                for _ in 0..numbers.next(70) {
                    data.extend_from_slice(codes[numbers.next(codes.len())].as_bytes());
                    data.push(b';');
                }
                data.push(b'm');
            }
            _ => {
                data.extend_from_slice(b"\x1b[");
                let tokens = 1 + numbers.next(6);
                for t in 0..tokens {
                    if t > 0 {
                        data.push(b';');
                    }
                    data.extend_from_slice(codes[numbers.next(codes.len())].as_bytes());
                }
                data.push(b'm');
            }
        }
    }
    data
}

#[test]
fn agrees_with_a_plainly_written_filter() {
    let mut numbers = Numbers(0x5eed);
    for round in 0..200 {
        let bold = round % 2 == 1;
        let data = some_stream(&mut numbers, 400);
        let mut filter = Filter::new(bold);
        let mut plain = Plain::new(bold);
        let mut at = 0;
        while at < data.len() {
            let end = (at + 1 + numbers.next(50)).min(data.len());
            let mut out = Vec::new();
            filter.on_child_data(&data[at..end], &mut out);
            assert_eq!(out, plain.feed(&data[at..end]));
            assert_eq!((filter.parent_video_reversed(), filter.parent_intensity()), plain.shown());
            at = end;
        }
    }
}

#[test]
fn agrees_with_a_plainly_written_filter_on_every_single_code() {
    for bold in [false, true] {
        for first in 0..=300u32 {
            for second in [0u32, 1, 2, 5, 7, 31, 41, 38, 48, 4] {
                let data = format!("\x1b[{first};{second};9;8m").into_bytes();
                let mut filter = Filter::new(bold);
                let mut plain = Plain::new(bold);
                let mut out = Vec::new();
                filter.on_child_data(&data, &mut out);
                assert_eq!(out, plain.feed(&data));
            }
        }
    }
}
