use gamenet::clock::now_millis;
use gamenet::error::GameError;
use gamenet::handler::texture::Texture;
use gamenet::ui::render_state::UIRender;
use gamenet::ui::utils::Dimension;
use gamenet::ui::utils::EventResult;
use gamenet::ui::utils::RenderCommand;
use gamenet::ui::utils::UIView;
use gamenet::file_handler::UserPassword;

#[test]
fn game_error_keeps_its_location() {
    let e = GameError::create("socket gone".to_string(), "network.rs", 42);
    assert_eq!(e.err, "socket gone");
    assert_eq!(e.file, "network.rs");
    assert_eq!(e.line, 42);
}

#[test]
fn ui_render_records_commands_in_order() {
    let mut r = UIRender::new(800, 600);
    assert_eq!(r.width, 800);
    assert_eq!(r.height, 600);
    r.set_background(Texture::PanelBackground);
    r.draw_text_at("hi".to_string(), 10, 20);
    assert_eq!(
        r.commands,
        vec![
            RenderCommand::DrawBackground(Texture::PanelBackground),
            RenderCommand::DrawText { text: "hi".to_string(), x: 10, y: 20 },
        ]
    );
}

#[test]
fn panels_draw_their_background() {
    let mut r = UIRender::new(800, 600);
    let p = gamenet::ui::panel::Panel::new();
    p.draw(&mut r);
    assert_eq!(r.commands.len(), 2);
    assert_eq!(r.commands[0], RenderCommand::DrawBackground(Texture::PanelBackground));
    assert_eq!(r.commands[1], RenderCommand::DrawText { text: "Hello world!".to_string(), x: 50, y: 90 });

    let mut r2 = UIRender::new(800, 600);
    let p2 = gamenet::elements::panel::Panel::new();
    p2.draw(&mut r2);
    assert_eq!(r2.commands, vec![RenderCommand::DrawBackground(Texture::PanelBackground)]);
    assert_eq!(p2.get_initial_position(&Dimension { x: 0, y: 0, width: 800, height: 600 }), (50, 50));
    assert_eq!(p2.get_desired_size(&Dimension { x: 0, y: 0, width: 800, height: 600 }), (700, 200));
}

#[test]
fn ui_value_types_are_usable() {
    let d = Dimension { x: 1, y: 2, width: 3, height: 4 };
    assert_eq!(d, Dimension { x: 1, y: 2, width: 3, height: 4 });
    assert_ne!(EventResult::Handled, EventResult::Unhandled);
    assert_ne!(UIView::Login, UIView::Blank);
    let up = UserPassword { user_id: 7, password: "hunter".to_string() };
    assert_eq!(up.user_id, 7);
}

#[test]
fn clock_reads_a_post_epoch_time() {
    let t = now_millis();
    assert!(t > 0);
    assert!(now_millis() >= t);
}
