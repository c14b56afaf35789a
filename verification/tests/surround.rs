use fon::{Channel, Surround};

#[derive(Default, PartialEq, Copy, Clone, Debug)]
struct Level(f32);

impl Channel for Level {}

impl From<f32> for Level {
    fn from(value: f32) -> Self {
        Level(value)
    }
}

#[test]
fn surround_new_converts_each_channel() {
    let frame = Surround::<i16>::new(1i8, -2, 3, -4, 5, -6);
    assert_eq!(frame.channels(), &[1i16, -2, 3, -4, 5, -6]);
}

#[test]
fn surround_new_keeps_the_order_of_its_arguments() {
    let frame = Surround::<Level>::new(0.1f32, 0.2, 0.3, 0.4, 0.5, 0.6);
    assert_eq!(
        frame.channels(),
        &[Level(0.1), Level(0.2), Level(0.3), Level(0.4), Level(0.5), Level(0.6)]
    );
}

#[test]
fn surround_has_six_channels() {
    let frame = Surround::<i8>::new(0i8, 0, 0, 0, 0, 0);
    assert_eq!(frame.channels().len(), 6);
    assert_eq!(frame, Surround::<i8>::default());
}

#[test]
fn surround_channels_mut_changes_the_frame() {
    let mut frame = Surround::<i16>::new(1i16, 2, 3, 4, 5, 6);
    frame.channels_mut()[4] = 50;
    assert_eq!(frame.channels(), &[1i16, 2, 3, 4, 50, 6]);
    assert_eq!(frame.channels_mut().len(), 6);
}

#[test]
fn surround_from_channels_takes_the_first_six() {
    let frame = Surround::<i16>::from_channels(&[1, 2, 3, 4, 5, 6, 7, 8]);
    assert_eq!(frame.channels(), &[1i16, 2, 3, 4, 5, 6]);
    assert_eq!(frame, Surround::<i16>::new(1i16, 2, 3, 4, 5, 6));
}

#[test]
fn surround_from_channels_undoes_channels() {
    let frame = Surround::<i8>::new(9i8, 8, 7, 6, 5, 4);
    assert_eq!(Surround::<i8>::from_channels(frame.channels()), frame);
}
