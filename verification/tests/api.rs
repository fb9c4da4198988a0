use piso_display::error::device_outcome;
use piso_display::{Bitmap, DisplayManager, Error, Position, Widget, Window, WindowId};

struct Label {
    id: WindowId,
    text: Vec<u8>,
}

impl Widget for Label {
    fn windowid(&self) -> WindowId {
        self.id
    }

    fn children(&self) -> Vec<&Label> {
        Vec::new()
    }

    fn render(&self, _window: &Window) -> Result<Bitmap, String> {
        let mut bitmap = Bitmap::new(self.text.len(), 1);
        for (x, pixel) in self.text.iter().enumerate() {
            bitmap.set(x, 0, *pixel);
        }
        Ok(bitmap)
    }
}

/// A device that keeps the last frame it was given, and can be made to fail.
struct Screen {
    shown: Option<Bitmap>,
    broken: bool,
}

impl Screen {
    fn update(&mut self, frame: Bitmap) -> bool {
        if !self.broken {
            self.shown = Some(frame);
        }
        !self.broken
    }
}

fn render_to(
    screen: &mut Screen,
    manager: &mut DisplayManager,
    root: &Label,
) -> Result<(), Error> {
    let frame = manager.render(root)?;
    device_outcome(screen.update(frame))
}

#[test]
fn a_pass_that_comes_to_an_end_reaches_the_device() {
    let mut manager = DisplayManager::new();
    let id = manager.add_child(manager.root(), Position::Fixed(1, 0));
    let mut screen = Screen { shown: None, broken: false };
    let label = Label { id, text: vec![7, 8] };
    assert_eq!(render_to(&mut screen, &mut manager, &label), Ok(()));
    let shown = screen.shown.unwrap();
    assert_eq!((shown.width(), shown.height()), (3, 1));
    assert_eq!((shown.get(0, 0), shown.get(1, 0), shown.get(2, 0)), (Some(0), Some(7), Some(8)));
}

#[test]
fn a_pass_that_stops_leaves_the_device_as_it_is() {
    let mut manager = DisplayManager::new();
    let id = manager.add_child(0, Position::Normal);
    let mut screen = Screen { shown: None, broken: false };
    assert_eq!(render_to(&mut screen, &mut manager, &Label { id, text: vec![1] }), Ok(()));
    let missing = Label { id: 30, text: vec![2, 2] };
    assert_eq!(render_to(&mut screen, &mut manager, &missing), Err(Error::WindowNotFound(30)));
    assert_eq!(screen.shown, Some({
        let mut frame = Bitmap::new(1, 1);
        frame.set(0, 0, 1);
        frame
    }));
}

#[test]
fn a_device_that_fails_is_a_device_error() {
    let mut manager = DisplayManager::new();
    let id = manager.add_child(0, Position::Normal);
    let mut screen = Screen { shown: None, broken: true };
    let label = Label { id, text: vec![1] };
    assert_eq!(render_to(&mut screen, &mut manager, &label), Err(Error::DeviceError));
    assert_eq!(screen.shown, None);
    assert_eq!(manager.get(id).map(|w| w.size), Some((1, 1)));
}
